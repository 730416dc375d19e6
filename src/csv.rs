//! Quoted-field CSV: text helpers, row parsing, header checks, and output.
use vstd::prelude::*;
use crate::text::{is_space, is_space_char, string_views};

verus! {

/// Declares `std::io::Error`, which `CsvError::IO` carries unopened.
#[verifier::external_type_specification]
#[verifier::external_body]
pub struct ExIoError(std::io::Error);

/// Errors of reading CSV: input failures and refused text, with a message.
#[derive(Debug)]
pub enum CsvError {
    IO(std::io::Error),
    ParseError(String),
    InvalidHeader(String),
    InvalidRow(String),
    InvalidColumn(String),
}

/// `p` is the first position of `c` in `s`.
pub open spec fn first_at(s: Seq<char>, c: char, p: int) -> bool {
    0 <= p < s.len() && s[p] == c && forall|j: int| 0 <= j < p ==> s[j] != c
}

/// The first position of `c` in `s`, if any.
pub open spec fn position(s: Seq<char>, c: char) -> Option<int> {
    if exists|p: int| first_at(s, c, p) {
        Some(choose|p: int| first_at(s, c, p))
    } else {
        None
    }
}

proof fn lemma_position(s: Seq<char>, c: char, p: int)
    requires
        first_at(s, c, p),
    ensures
        position(s, c) == Some(p),
{
    let q = choose|q: int| first_at(s, c, q);
    assert(first_at(s, c, q));
    if q < p {
        assert(s[q] != c);
    } else if p < q {
        assert(s[p] != c);
    }
}

fn find_char(s: &str, c: char) -> (r: Option<usize>)
    ensures
        r == match position(s@, c) {
            Some(p) => Some(p as usize),
            None => None::<usize>,
        },
        r is Some ==> r->Some_0 < s@.len(),
{
    let n = s.unicode_len();
    let mut i: usize = 0;
    while i < n
        invariant
            n == s@.len(),
            i <= n,
            forall|j: int| 0 <= j < i ==> s@[j] != c,
        decreases n - i,
    {
        if s.get_char(i) == c {
            proof {
                lemma_position(s@, c, i as int);
            }
            return Some(i);
        }
        i += 1;
    }
    assert(!exists|p: int| first_at(s@, c, p));
    None
}

/// The rest of `input` after its first character, when that is `target`.
/// An empty input gives `None`.
pub fn skip_next(input: &str, target: char) -> (r: Option<&str>)
    ensures
        r is Some <==> (input@.len() > 0 && input@[0] == target),
        r is Some ==> r->Some_0@ == input@.drop_first(),
{
    let n = input.unicode_len();
    if n > 0 && input.get_char(0) == target {
        let rest = input.substring_char(1, n);
        assert(rest@ =~= input@.drop_first());
        Some(rest)
    } else {
        None
    }
}

/// Splits `input` before the first `target`; without one, the second part is
/// empty.
pub fn take_until(input: &str, target: char) -> (r: (&str, &str))
    ensures
        match position(input@, target) {
            Some(p) => r.0@ == input@.subrange(0, p) && r.1@ == input@.subrange(
                p,
                input@.len() as int,
            ),
            None => r.0@ == input@ && r.1@ == Seq::<char>::empty(),
        },
{
    let n = input.unicode_len();
    match find_char(input, target) {
        Some(p) => (input.substring_char(0, p), input.substring_char(p, n)),
        None => {
            let rest = input.substring_char(n, n);
            assert(rest@ =~= Seq::<char>::empty());
            (input, rest)
        },
    }
}

/// The parts of `input` before and after its first `target`, which is
/// dropped; `None` without one.
pub fn take_and_skip(input: &str, target: char) -> (r: Option<(&str, &str)>)
    ensures
        match position(input@, target) {
            Some(p) => r is Some && r->Some_0.0@ == input@.subrange(0, p) && r->Some_0.1@
                == input@.subrange(p + 1, input@.len() as int),
            None => r is None,
        },
{
    match find_char(input, target) {
        None => None,
        Some(_) => {
            let (first, second) = take_until(input, target);
            let ghost p = position(input@, target)->Some_0;
            assert(second@.len() > 0 && second@[0] == input@[p]);
            let c = second.get_char(0);
            let rest = skip_next(second, c).unwrap();
            assert(rest@ =~= input@.subrange(p + 1, input@.len() as int));
            Some((first, rest))
        },
    }
}

/// The number of leading whitespace characters of `s`.
pub open spec fn lead(s: Seq<char>) -> nat
    decreases s.len(),
{
    if s.len() > 0 && is_space(s[0]) {
        1 + lead(s.drop_first())
    } else {
        0
    }
}

/// The number of trailing whitespace characters of `s`.
pub open spec fn trail(s: Seq<char>) -> nat
    decreases s.len(),
{
    if s.len() > 0 && is_space(s.last()) {
        1 + trail(s.drop_last())
    } else {
        0
    }
}

/// `s` without leading and trailing whitespace.
pub open spec fn trimmed(s: Seq<char>) -> Seq<char> {
    if lead(s) == s.len() {
        seq![]
    } else {
        s.subrange(lead(s) as int, s.len() - trail(s))
    }
}

proof fn lemma_lead_step(s: Seq<char>, i: int)
    requires
        0 <= i < s.len(),
        is_space(s[i]),
    ensures
        lead(s.subrange(i, s.len() as int)) == 1 + lead(s.subrange(i + 1, s.len() as int)),
{
    assert(s.subrange(i, s.len() as int).drop_first() =~= s.subrange(i + 1, s.len() as int));
}

proof fn lemma_trail_step(s: Seq<char>, j: int)
    requires
        0 < j <= s.len(),
        is_space(s[j - 1]),
    ensures
        trail(s.subrange(0, j)) == 1 + trail(s.subrange(0, j - 1)),
{
    assert(s.subrange(0, j).drop_last() =~= s.subrange(0, j - 1));
}

/// Where the trimmed part of `s` starts and ends.
fn trim_bounds(s: &str) -> (r: (usize, usize))
    ensures
        r.0 <= r.1 <= s@.len(),
        s@.subrange(r.0 as int, r.1 as int) == trimmed(s@),
{
    let n = s.unicode_len();
    let mut a: usize = 0;
    assert(s@.subrange(0, n as int) =~= s@);
    while a < n && is_space_char(s.get_char(a))
        invariant
            n == s@.len(),
            a <= n,
            lead(s@) == a + lead(s@.subrange(a as int, n as int)),
        decreases n - a,
    {
        proof {
            lemma_lead_step(s@, a as int);
        }
        a += 1;
    }
    assert(s@.subrange(0, n as int) =~= s@);
    if a == n {
        assert(s@.subrange(n as int, n as int) =~= Seq::<char>::empty());
        return (n, n);
    }
    assert(lead(s@.subrange(a as int, n as int)) == 0);
    let mut b: usize = n;
    while b > a + 1 && is_space_char(s.get_char(b - 1))
        invariant
            n == s@.len(),
            a < b <= n,
            lead(s@) == a,
            trail(s@) == (n - b) + trail(s@.subrange(0, b as int)),
        decreases b,
    {
        proof {
            lemma_trail_step(s@, b as int);
        }
        b -= 1;
    }
    proof {
        let t = s@.subrange(0, b as int);
        if b > a + 1 {
            assert(trail(t) == 0);
        } else {
            assert(!is_space(s@[a as int]));
            assert(t.last() == s@[a as int]);
            assert(trail(t) == 0);
        }
    }
    (a, b)
}

/// `s` without leading and trailing whitespace.
pub fn trim(s: &str) -> (r: &str)
    ensures
        r@ == trimmed(s@),
{
    let (a, b) = trim_bounds(s);
    s.substring_char(a, b)
}

/// The pieces of `s` between commas (one more than there are commas).
pub open spec fn comma_fields(s: Seq<char>) -> Seq<Seq<char>>
    decreases s.len(),
{
    if s.len() == 0 {
        seq![seq![]]
    } else {
        let f = comma_fields(s.drop_last());
        if s.last() == ',' {
            f.push(seq![])
        } else {
            f.drop_last().push(f.last().push(s.last()))
        }
    }
}

proof fn lemma_comma_fields_len(s: Seq<char>)
    ensures
        comma_fields(s).len() > 0,
    decreases s.len(),
{
    if s.len() > 0 {
        lemma_comma_fields_len(s.drop_last());
    }
}

/// Two positions of `v` that hold equal text.
pub open spec fn has_duplicate(v: Seq<Seq<char>>) -> bool {
    exists|i: int, j: int| 0 <= i < j < v.len() && v[i] == v[j]
}

/// The column names of a header line: the comma-separated pieces, trimmed.
pub open spec fn header_columns(line: Seq<char>) -> Seq<Seq<char>> {
    comma_fields(line).map_values(|f: Seq<char>| trimmed(f))
}

/// Splits `line` at commas and trims each piece.
pub fn split_columns(line: &str) -> (r: Vec<String>)
    ensures
        string_views(r@) == header_columns(line@),
{
    let n = line.unicode_len();
    let mut cols: Vec<String> = Vec::new();
    let mut start: usize = 0;
    let mut i: usize = 0;
    while i < n
        invariant
            n == line@.len(),
            start <= i <= n,
            string_views(cols@) == comma_fields(line@.subrange(0, i as int)).subrange(
                0,
                cols@.len() as int,
            ).map_values(|f: Seq<char>| trimmed(f)),
            comma_fields(line@.subrange(0, i as int)).len() == cols@.len() + 1,
            comma_fields(line@.subrange(0, i as int)).last() == line@.subrange(start as int, i as int),
        decreases n - i,
    {
        let ghost pre = line@.subrange(0, i as int);
        let ghost cur = line@.subrange(0, i + 1);
        assert(cur.drop_last() =~= pre);
        if line.get_char(i) == ',' {
            let piece = line.substring_char(start, i);
            let col = String::from_str(trim(piece));
            let ghost old_cols = cols@;
            cols.push(col);
            proof {
                let f = comma_fields(pre);
                let k = old_cols.len() as int;
                assert(comma_fields(cur) == f.push(seq![]));
                assert(comma_fields(cur).subrange(0, k + 1) =~= f);
                assert(f =~= f.subrange(0, k).push(f.last()));
                assert(string_views(cols@) =~= string_views(old_cols).push(col@));
                assert(f.subrange(0, k).push(f.last()).map_values(|g: Seq<char>| trimmed(g))
                    =~= f.subrange(0, k).map_values(|g: Seq<char>| trimmed(g)).push(trimmed(f.last())));
                assert(string_views(cols@) =~= comma_fields(cur).subrange(
                    0,
                    cols@.len() as int,
                ).map_values(|f: Seq<char>| trimmed(f)));
                assert(line@.subrange((i + 1) as int, (i + 1) as int) =~= Seq::<char>::empty());
            }
            start = i + 1;
        } else {
            proof {
                assert(line@.subrange(start as int, i + 1) =~= line@.subrange(start as int, i as int).push(line@[i as int]));
                assert(string_views(cols@) =~= comma_fields(cur).subrange(
                    0,
                    cols@.len() as int,
                ).map_values(|f: Seq<char>| trimmed(f)));
            }
        }
        i += 1;
    }
    let piece = line.substring_char(start, n);
    let col = String::from_str(trim(piece));
    let ghost old_cols = cols@;
    cols.push(col);
    proof {
        assert(line@.subrange(0, n as int) =~= line@);
        let f = comma_fields(line@);
        let k = old_cols.len() as int;
        assert(f =~= f.subrange(0, k).push(f.last()));
        assert(string_views(cols@) =~= string_views(old_cols).push(col@));
        assert(f.subrange(0, k).push(f.last()).map_values(|g: Seq<char>| trimmed(g))
            =~= f.subrange(0, k).map_values(|g: Seq<char>| trimmed(g)).push(trimmed(f.last())));
        assert(string_views(cols@) =~= header_columns(line@));
    }
    cols
}

/// Reads the column names of a header line; repeated names are refused, and
/// so is a missing line (`None`).
pub fn parse_header(first: Option<&str>) -> (r: Result<Vec<String>, CsvError>)
    ensures
        first is None ==> (r matches Err(CsvError::InvalidHeader(m)) && m@ == "No header"@),
        first matches Some(line) ==> match r {
            Ok(cols) => !has_duplicate(header_columns(line@)) && string_views(cols@)
                == header_columns(line@),
            Err(e) => has_duplicate(header_columns(line@)) && (e matches CsvError::InvalidHeader(
                m,
            ) && m@ == "Duplicate column names"@),
        },
{
    let line = match first {
        None => return Err(CsvError::InvalidHeader(String::from_str("No header"))),
        Some(line) => line,
    };
    let columns = split_columns(line);
    let ghost v = header_columns(line@);
    let n = columns.len();
    let mut i: usize = 0;
    while i < n
        invariant
            n == columns@.len() == v.len(),
            v == header_columns(line@),
            first == Some(line),
            string_views(columns@) == v,
            i <= n,
            forall|a: int, b: int| 0 <= a < i && a < b < n ==> v[a] != v[b],
        decreases n - i,
    {
        let mut j: usize = i + 1;
        while j < n
            invariant
                n == columns@.len() == v.len(),
                v == header_columns(line@),
                first == Some(line),
            first == Some(line),
                string_views(columns@) == v,
                i < n,
                i + 1 <= j <= n,
                forall|a: int, b: int| 0 <= a < i && a < b < n ==> v[a] != v[b],
                forall|b: int| i < b < j ==> v[i as int] != v[b],
            decreases n - j,
        {
            assert(v[i as int] == columns@[i as int]@ && v[j as int] == columns@[j as int]@);
            if columns[i] == columns[j] {
                assert(has_duplicate(v)) by {
                    assert(0 <= i < j < v.len() && v[i as int] == v[j as int]);
                }
                return Err(CsvError::InvalidHeader(String::from_str("Duplicate column names")));
            }
            j += 1;
        }
        i += 1;
    }
    Ok(columns)
}

/// The values of a row after its opening quote, for `k` columns: each value
/// ends at the next quote; between values stands a quote-free delimiter that
/// trims to a comma, then a quote; nothing may follow the last closing quote.
/// `Err` holds the message.
pub open spec fn row_fields(rest: Seq<char>, k: nat) -> Result<Seq<Seq<char>>, Seq<char>>
    decreases k,
{
    if k == 0 {
        Ok(seq![])
    } else {
        match position(rest, '"') {
            None => Err("Missing closing quotation mark"@),
            Some(p) => {
                let v = rest.subrange(0, p);
                let after = rest.subrange(p + 1, rest.len() as int);
                if k == 1 {
                    if after.len() == 0 {
                        Ok(seq![v])
                    } else {
                        Err("Not enough values in row"@)
                    }
                } else {
                    match position(after, '"') {
                        None => Err("Missing opening quotation mark"@),
                        Some(q) => if trimmed(after.subrange(0, q)) != seq![','] {
                            Err("Delimiter error"@)
                        } else {
                            match row_fields(
                                after.subrange(q + 1, after.len() as int),
                                (k - 1) as nat,
                            ) {
                                Ok(vs) => Ok(seq![v] + vs),
                                Err(m) => Err(m),
                            }
                        },
                    }
                }
            },
        }
    }
}

/// The values of a row line for `k` columns: the trimmed line must open with
/// a quote, then follow `row_fields`.
pub open spec fn row_values(line: Seq<char>, k: nat) -> Result<Seq<Seq<char>>, Seq<char>> {
    let t = trimmed(line);
    if t.len() == 0 || t[0] != '"' {
        Err("Invalid beginning of row"@)
    } else {
        row_fields(t.drop_first(), k)
    }
}

pub open spec fn prefixed(
    done: Seq<Seq<char>>,
    r: Result<Seq<Seq<char>>, Seq<char>>,
) -> Result<Seq<Seq<char>>, Seq<char>> {
    match r {
        Ok(vs) => Ok(done + vs),
        Err(m) => Err(m),
    }
}

fn row_error(msg: &str) -> (r: CsvError)
    ensures
        r matches CsvError::InvalidRow(m) && m@ == msg@,
{
    CsvError::InvalidRow(String::from_str(msg))
}

/// Reads the quoted values of a row line, one per column, in column order.
pub fn parse_row(columns: &Vec<String>, line: &str) -> (r: Result<Vec<String>, CsvError>)
    ensures
        match row_values(line@, columns@.len() as nat) {
            Ok(vs) => r is Ok && string_views(r->Ok_0@) == vs,
            Err(m) => (r matches Err(CsvError::InvalidRow(e)) && e@ == m),
        },
{
    let t = trim(line);
    let mut rest = match skip_next(t, '"') {
        Some(s) => s,
        None => return Err(row_error("Invalid beginning of row")),
    };
    let ghost start = rest@;
    let k = columns.len();
    let mut values: Vec<String> = Vec::new();
    let mut i: usize = 0;
    while i < k
        invariant
            k == columns@.len(),
            i <= k,
            values@.len() == i,
            row_values(line@, k as nat) == row_fields(start, k as nat),
            row_fields(start, k as nat) == prefixed(
                string_views(values@),
                row_fields(rest@, (k - i) as nat),
            ),
        decreases k - i,
    {
        let ghost old_values = string_views(values@);
        let (value, remainder) = match take_and_skip(rest, '"') {
            Some(s) => s,
            None => return Err(row_error("Missing closing quotation mark")),
        };
        let ghost p = position(rest@, '"')->Some_0;
        assert(value@ == rest@.subrange(0, p));
        values.push(String::from_str(value));
        assert(string_views(values@) =~= old_values.push(value@));
        if i == k - 1 {
            if remainder.unicode_len() != 0 {
                return Err(row_error("Not enough values in row"));
            }
            assert(old_values.push(value@) =~= old_values + seq![value@]);
            assert(row_fields(remainder@, 0) == Ok::<Seq<Seq<char>>, Seq<char>>(seq![]));
            assert(string_views(values@) + seq![] =~= string_views(values@));
            rest = remainder;
        } else {
            let (delim, after) = match take_and_skip(remainder, '"') {
                Some(s) => s,
                None => return Err(row_error("Missing opening quotation mark")),
            };
            let d = trim(delim);
            if !(d.unicode_len() == 1 && d.get_char(0) == ',') {
                assert(d@ != seq![',']);
                return Err(row_error("Delimiter error"));
            }
            assert(d@ =~= seq![',']);
            rest = after;
            assert(forall|vs: Seq<Seq<char>>|
                old_values + (seq![value@] + vs) == string_views(values@) + vs) by {
                assert forall|vs: Seq<Seq<char>>|
                    old_values + (seq![value@] + vs) == string_views(values@) + vs by {
                    assert(old_values + (seq![value@] + vs) =~= string_views(values@) + vs);
                }
            }
        }
        i += 1;
    }
    assert(row_fields(rest@, 0) == Ok::<Seq<Seq<char>>, Seq<char>>(seq![]));
    assert(string_views(values@) + seq![] =~= string_views(values@));
    Ok(values)
}

/// `v` joined with `sep` between neighbours.
pub open spec fn joined(v: Seq<Seq<char>>, sep: Seq<char>) -> Seq<char>
    decreases v.len(),
{
    if v.len() == 0 {
        seq![]
    } else if v.len() == 1 {
        v[0]
    } else {
        joined(v.drop_last(), sep) + sep + v.last()
    }
}

pub open spec fn quoted(v: Seq<Seq<char>>) -> Seq<Seq<char>> {
    v.map_values(|s: Seq<char>| seq!['"'] + s + seq!['"'])
}

/// Joins `parts` with `sep` and ends the line.
fn join_line(parts: &Vec<String>, sep: &str) -> (r: String)
    ensures
        r@ == joined(string_views(parts@), sep@) + seq!['\n'],
{
    let mut out = String::new();
    let mut i: usize = 0;
    while i < parts.len()
        invariant
            i <= parts@.len(),
            out@ == joined(string_views(parts@).subrange(0, i as int), sep@),
        decreases parts@.len() - i,
    {
        let ghost pre = string_views(parts@).subrange(0, i as int);
        let ghost cur = string_views(parts@).subrange(0, i + 1);
        assert(cur.drop_last() =~= pre);
        if i > 0 {
            out.append(sep);
        }
        out.append(parts[i].as_str());
        proof {
            if i == 0 {
                assert(out@ =~= cur[0]);
            }
        }
        i += 1;
    }
    assert(string_views(parts@).subrange(0, parts@.len() as int) =~= string_views(parts@));
    out.append("\n");
    proof {
        reveal_strlit("\n");
    }
    out
}

/// The header line: the column names joined by `", "`, then a newline.
pub fn header_line(columns: &Vec<String>) -> (r: String)
    ensures
        r@ == joined(string_views(columns@), ", "@) + seq!['\n'],
{
    join_line(columns, ", ")
}

/// A row line: each value in double quotes, joined by `", "`, then a
/// newline.
pub fn row_line(values: &Vec<String>) -> (r: String)
    ensures
        r@ == joined(quoted(string_views(values@)), ", "@) + seq!['\n'],
{
    let mut parts: Vec<String> = Vec::new();
    let mut i: usize = 0;
    while i < values.len()
        invariant
            i <= values@.len(),
            string_views(parts@) == quoted(string_views(values@)).subrange(0, i as int),
        decreases values@.len() - i,
    {
        let mut q = String::from_str("\"");
        q.append(values[i].as_str());
        q.append("\"");
        proof {
            reveal_strlit("\"");
            assert(q@ == seq!['"'] + values@[i as int]@ + seq!['"']);
        }
        let ghost old_parts = string_views(parts@);
        parts.push(q);
        assert(string_views(parts@) =~= old_parts.push(q@));
        assert(string_views(parts@) =~= quoted(string_views(values@)).subrange(0, i + 1));
        i += 1;
    }
    assert(quoted(string_views(values@)).subrange(0, values@.len() as int) =~= quoted(
        string_views(values@),
    ));
    join_line(&parts, ", ")
}

} // verus!
