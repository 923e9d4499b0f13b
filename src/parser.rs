use crate::database::Database;
use crate::error::DbError;
use crate::record::{Record, RecordSerial, SerialView};
use crate::table::Table;
use crate::page::{page_spec, PageType};
use crate::traversal::{
    leaf_payload, lemma_leaf_page_rows, lemma_two_level_rows, page_padding, pages_view, rows_view,
    tree_records, tree_rows,
};
use vstd::prelude::*;
use vstd::slice::slice_to_vec;
use vstd::string::*;

verus! {

/// A `WHERE column = value` condition; the grammar accepts none yet.
#[derive(Debug)]
pub struct Where {
    column_name: String,
    value: String,
}

/// A parsed query.
#[derive(Debug)]
pub enum Command {
    Count { table_name: String, conditions: Vec<Where> },
    Select { table_name: String, column_names: Vec<String>, conditions: Vec<Where> },
    SelectAll { table_name: String, conditions: Vec<Where> },
}

/// What a query asks for.
pub enum CommandView {
    Count { table_name: Seq<char> },
    Select { table_name: Seq<char>, column_names: Seq<Seq<char>> },
    SelectAll { table_name: Seq<char> },
}

impl View for Command {
    type V = CommandView;

    open spec fn view(&self) -> CommandView {
        match self {
            Command::Count { table_name, .. } => CommandView::Count { table_name: table_name@ },
            Command::Select { table_name, column_names, .. } => CommandView::Select {
                table_name: table_name@,
                column_names: column_names@.map_values(|c: String| c@),
            },
            Command::SelectAll { table_name, .. } => CommandView::SelectAll {
                table_name: table_name@,
            },
        }
    }
}

impl Command {
    pub open spec fn has_no_conditions(&self) -> bool {
        match self {
            Command::Count { conditions, .. } => conditions@.len() == 0,
            Command::Select { conditions, .. } => conditions@.len() == 0,
            Command::SelectAll { conditions, .. } => conditions@.len() == 0,
        }
    }

    /// The table the query reads.
    pub fn table_name(&self) -> (r: &String)
        ensures
            r@ == match self@ {
                CommandView::Count { table_name } => table_name,
                CommandView::Select { table_name, .. } => table_name,
                CommandView::SelectAll { table_name } => table_name,
            },
    {
        match self {
            Command::Count { table_name, .. } => table_name,
            Command::Select { table_name, .. } => table_name,
            Command::SelectAll { table_name, .. } => table_name,
        }
    }
}

pub open spec fn is_space(c: char) -> bool {
    c == ' ' || c == '\n' || c == '\t'
}

/// Characters of table and column names.
pub open spec fn is_name_char(c: char) -> bool {
    ('a' <= c && c <= 'z') || c == '_'
}

/// The end of the run of spaces that starts at `s[i]`.
pub open spec fn skip_spaces(s: Seq<char>, i: nat) -> nat
    decreases s.len() - i,
{
    if i < s.len() && is_space(s[i as int]) {
        skip_spaces(s, i + 1)
    } else {
        i
    }
}

/// The end of the name that starts at `s[i]`.
pub open spec fn skip_name(s: Seq<char>, i: nat) -> nat
    decreases s.len() - i,
{
    if i < s.len() && is_name_char(s[i as int]) {
        skip_name(s, i + 1)
    } else {
        i
    }
}

/// One or more spaces at `s[i]`: where they end.
pub open spec fn spaces1(s: Seq<char>, i: nat) -> Option<nat> {
    if skip_spaces(s, i) > i {
        Some(skip_spaces(s, i))
    } else {
        None
    }
}

/// Whether `w` is written at `s[i]`.
pub open spec fn has_word(s: Seq<char>, i: nat, w: Seq<char>) -> bool {
    i + w.len() <= s.len() && s.subrange(i as int, (i + w.len()) as int) == w
}

pub open spec fn kw_select() -> Seq<char> {
    seq!['S', 'E', 'L', 'E', 'C', 'T']
}

pub open spec fn kw_count() -> Seq<char> {
    seq!['C', 'O', 'U', 'N', 'T', '(', '*', ')']
}

pub open spec fn kw_from() -> Seq<char> {
    seq!['F', 'R', 'O', 'M']
}

pub open spec fn kw_create() -> Seq<char> {
    seq!['C', 'R', 'E', 'A', 'T', 'E']
}

pub open spec fn kw_table() -> Seq<char> {
    seq!['T', 'A', 'B', 'L', 'E']
}

proof fn lemma_skip_bounds(s: Seq<char>, i: nat)
    requires
        i <= s.len(),
    ensures
        i <= skip_spaces(s, i) <= s.len(),
        i <= skip_name(s, i) <= s.len(),
        skip_spaces(s, i) < s.len() ==> !is_space(s[skip_spaces(s, i) as int]),
        skip_name(s, i) < s.len() ==> !is_name_char(s[skip_name(s, i) as int]),
    decreases s.len() - i,
{
    if i < s.len() {
        lemma_skip_bounds(s, i + 1);
    }
}

/// `SELECT` and the spaces after it: where the rest of the query starts.
pub open spec fn after_select(s: Seq<char>) -> Option<nat> {
    if has_word(s, 0, kw_select()) {
        spaces1(s, 6)
    } else {
        None
    }
}

/// `FROM`, spaces and a table name at `s[i]`: the bounds of the name.
pub open spec fn from_clause(s: Seq<char>, i: nat) -> Option<(nat, nat)> {
    if has_word(s, i, kw_from()) && spaces1(s, i + 4) is Some {
        let j = spaces1(s, i + 4)->Some_0;
        if skip_name(s, j) > j {
            Some((j, skip_name(s, j)))
        } else {
            None
        }
    } else {
        None
    }
}

/// `SELECT COUNT(*) FROM t`: the bounds of `t`.
pub open spec fn count_form(s: Seq<char>) -> Option<(nat, nat)> {
    match after_select(s) {
        Some(i) => if has_word(s, i, kw_count()) && spaces1(s, i + 8) is Some {
            from_clause(s, spaces1(s, i + 8)->Some_0)
        } else {
            None
        },
        None => None,
    }
}

/// `SELECT * FROM t`: the bounds of `t`.
pub open spec fn select_all_form(s: Seq<char>) -> Option<(nat, nat)> {
    match after_select(s) {
        Some(i) => if has_word(s, i, seq!['*']) && spaces1(s, i + 1) is Some {
            from_clause(s, spaces1(s, i + 1)->Some_0)
        } else {
            None
        },
        None => None,
    }
}

/// The names of a comma-separated list whose first name starts at `s[p]`,
/// and where the list ends. A comma that no name follows is not part of it.
pub open spec fn names_from(s: Seq<char>, p: nat) -> (Seq<Seq<char>>, nat)
    decreases s.len() - p,
    via names_from_decreases
{
    let e = skip_name(s, p);
    let first = s.subrange(p as int, e as int);
    let q = skip_spaces(s, e);
    if p < s.len() && q < s.len() && s[q as int] == ',' && skip_name(
        s,
        skip_spaces(s, q + 1),
    ) > skip_spaces(s, q + 1) {
        let rest = names_from(s, skip_spaces(s, q + 1));
        (seq![first] + rest.0, rest.1)
    } else {
        (seq![first], e)
    }
}

#[via_fn]
proof fn names_from_decreases(s: Seq<char>, p: nat) {
    if p < s.len() {
        lemma_skip_bounds(s, p);
        let e = skip_name(s, p);
        lemma_skip_bounds(s, e);
        let q = skip_spaces(s, e);
        if q < s.len() {
            lemma_skip_bounds(s, q + 1);
        }
    }
}

/// `SELECT a, b FROM t`: the column names and the bounds of `t`.
pub open spec fn select_form(s: Seq<char>) -> Option<(Seq<Seq<char>>, nat, nat)> {
    match after_select(s) {
        Some(i) => if skip_name(s, i) > i {
            let list = names_from(s, i);
            if spaces1(s, list.1) is Some && from_clause(s, spaces1(s, list.1)->Some_0) is Some {
                let t = from_clause(s, spaces1(s, list.1)->Some_0)->Some_0;
                Some((list.0, t.0, t.1))
            } else {
                None
            }
        } else {
            None
        },
        None => None,
    }
}

/// The query that `s` writes, if the grammar accepts it: the first form that
/// matches decides, and it must reach the end of `s`.
#[verifier::opaque]
pub open spec fn command_spec(s: Seq<char>) -> Option<CommandView> {
    if count_form(s) is Some {
        let t = count_form(s)->Some_0;
        if t.1 == s.len() {
            Some(CommandView::Count { table_name: s.subrange(t.0 as int, t.1 as int) })
        } else {
            None
        }
    } else if select_form(s) is Some {
        let t = select_form(s)->Some_0;
        if t.2 == s.len() {
            Some(
                CommandView::Select {
                    table_name: s.subrange(t.1 as int, t.2 as int),
                    column_names: t.0,
                },
            )
        } else {
            None
        }
    } else if select_all_form(s) is Some {
        let t = select_all_form(s)->Some_0;
        if t.1 == s.len() {
            Some(CommandView::SelectAll { table_name: s.subrange(t.0 as int, t.1 as int) })
        } else {
            None
        }
    } else {
        None
    }
}

/// The end of `s[..e]` once trailing spaces are dropped.
pub open spec fn trim_end(s: Seq<char>, e: nat) -> nat
    decreases e,
{
    if e > 0 && e <= s.len() && is_space(s[e - 1]) {
        trim_end(s, (e - 1) as nat)
    } else {
        e
    }
}

/// The bounds of the column clauses of `CREATE TABLE name ( ... )`: the
/// text between the opening parenthesis and the closing one that ends the
/// statement.
pub open spec fn table_body(s: Seq<char>) -> Option<(nat, nat)> {
    if has_word(s, 0, kw_create()) && spaces1(s, 6) is Some {
        let i = spaces1(s, 6)->Some_0;
        if has_word(s, i, kw_table()) && spaces1(s, i + 5) is Some {
            let j = spaces1(s, i + 5)->Some_0;
            let k = skip_spaces(s, skip_name(s, j));
            let e = trim_end(s, s.len());
            if skip_name(s, j) > j && k < s.len() && s[k as int] == '(' && e >= k + 2 && s[e
                - 1] == ')' {
                Some((k + 1, (e - 1) as nat))
            } else {
                None
            }
        } else {
            None
        }
    } else {
        None
    }
}

/// The first comma in `s[i..end]`, or `end`.
pub open spec fn next_comma(s: Seq<char>, i: nat, end: nat) -> nat
    decreases end - i,
{
    if i < end && s[i as int] != ',' {
        next_comma(s, i + 1, end)
    } else {
        i
    }
}

/// The column names of the clauses in `s[i..end]`: the name that starts
/// each comma-separated clause. A clause that starts with no name makes
/// the list invalid.
pub open spec fn columns_from(s: Seq<char>, i: nat, end: nat) -> Option<Seq<Seq<char>>>
    decreases end - i,
    via columns_from_decreases
{
    let st = skip_spaces(s, i);
    let ne = skip_name(s, st);
    if i > s.len() || st >= end || ne == st {
        None
    } else {
        let name = s.subrange(st as int, ne as int);
        let ce = next_comma(s, ne, end);
        if ce >= end {
            Some(seq![name])
        } else {
            match columns_from(s, ce + 1, end) {
                Some(rest) => Some(seq![name] + rest),
                None => None,
            }
        }
    }
}

proof fn lemma_next_comma_bounds(s: Seq<char>, i: nat, end: nat)
    ensures
        i <= end ==> i <= next_comma(s, i, end) <= end,
    decreases end - i,
{
    if i < end && s[i as int] != ',' {
        lemma_next_comma_bounds(s, i + 1, end);
    }
}

#[via_fn]
proof fn columns_from_decreases(s: Seq<char>, i: nat, end: nat) {
    if i <= s.len() {
        lemma_skip_bounds(s, i);
        let st = skip_spaces(s, i);
        lemma_skip_bounds(s, st);
        let ne = skip_name(s, st);
        lemma_next_comma_bounds(s, ne, end);
    }
}

/// The column names declared by `CREATE TABLE` text.
#[verifier::opaque]
pub open spec fn create_table_spec(s: Seq<char>) -> Option<Seq<Seq<char>>> {
    match table_body(s) {
        Some(b) => columns_from(s, b.0, b.1),
        None => None,
    }
}

fn chars_of(s: &str) -> (r: Vec<char>)
    ensures
        r@ == s@,
{
    let n = s.unicode_len();
    let mut out: Vec<char> = Vec::new();
    let mut i: usize = 0;
    while i < n
        invariant
            n == s@.len(),
            i <= n,
            out@ == s@.subrange(0, i as int),
        decreases n - i,
    {
        out.push(s.get_char(i));
        i += 1;
        assert(out@ == s@.subrange(0, i as int));
    }
    out
}

fn skip_spaces_at(c: &Vec<char>, i: usize) -> (r: usize)
    requires
        i <= c@.len(),
    ensures
        r as nat == skip_spaces(c@, i as nat),
{
    let mut j = i;
    while j < c.len() && (c[j] == ' ' || c[j] == '\n' || c[j] == '\t')
        invariant
            i <= j <= c@.len(),
            skip_spaces(c@, i as nat) == skip_spaces(c@, j as nat),
        decreases c@.len() - j,
    {
        j += 1;
    }
    j
}

fn skip_name_at(c: &Vec<char>, i: usize) -> (r: usize)
    requires
        i <= c@.len(),
    ensures
        r as nat == skip_name(c@, i as nat),
{
    let mut j = i;
    while j < c.len() && (('a' <= c[j] && c[j] <= 'z') || c[j] == '_')
        invariant
            i <= j <= c@.len(),
            skip_name(c@, i as nat) == skip_name(c@, j as nat),
        decreases c@.len() - j,
    {
        j += 1;
    }
    j
}

fn has_word_at(c: &Vec<char>, i: usize, w: &[char]) -> (r: bool)
    ensures
        r == has_word(c@, i as nat, w@),
{
    if i > c.len() || w.len() > c.len() - i {
        return false;
    }
    let mut k: usize = 0;
    let len = c.len();
    while k < w.len()
        invariant
            len == c@.len(),
            i + w@.len() <= c@.len(),
            k <= w@.len(),
            forall|j: int| 0 <= j < k ==> c@[i + j] == w@[j],
        decreases w@.len() - k,
    {
        if c[i + k] != w[k] {
            assert(c@.subrange(i as int, i + w@.len())[k as int] != w@[k as int]);
            return false;
        }
        k += 1;
    }
    assert(c@.subrange(i as int, i + w@.len()) == w@);
    true
}

fn spaces1_at(c: &Vec<char>, i: usize) -> (r: Option<usize>)
    requires
        i <= c@.len(),
    ensures
        r is Some <==> spaces1(c@, i as nat) is Some,
        r is Some ==> r->Some_0 as nat == spaces1(c@, i as nat)->Some_0,
        r is Some ==> r->Some_0 <= c@.len(),
{
    proof {
        lemma_skip_bounds(c@, i as nat);
    }
    let j = skip_spaces_at(c, i);
    if j > i {
        Some(j)
    } else {
        None
    }
}

/// The text of `s[a..b]`.
fn text_between(s: &str, a: usize, b: usize) -> (r: String)
    requires
        a <= b <= s@.len(),
    ensures
        r@ == s@.subrange(a as int, b as int),
{
    String::from_str(s.substring_char(a, b))
}

fn after_select_at(c: &Vec<char>) -> (r: Option<usize>)
    ensures
        r is Some <==> after_select(c@) is Some,
        r is Some ==> r->Some_0 as nat == after_select(c@)->Some_0 && r->Some_0 <= c@.len(),
{
    let w = ['S', 'E', 'L', 'E', 'C', 'T'];
    assert(w@ == kw_select());
    if has_word_at(c, 0, w.as_slice()) {
        spaces1_at(c, 6)
    } else {
        None
    }
}

fn from_clause_at(c: &Vec<char>, i: usize) -> (r: Option<(usize, usize)>)
    requires
        i <= c@.len(),
    ensures
        r is Some <==> from_clause(c@, i as nat) is Some,
        r is Some ==> r->Some_0.0 as nat == from_clause(c@, i as nat)->Some_0.0 && r->Some_0.1 as nat
            == from_clause(c@, i as nat)->Some_0.1 && r->Some_0.0 <= r->Some_0.1 <= c@.len(),
{
    let len = c.len();
    let w = ['F', 'R', 'O', 'M'];
    assert(w@ == kw_from());
    if !has_word_at(c, i, w.as_slice()) {
        return None;
    }
    let j = match spaces1_at(c, i + 4) {
        Some(j) => j,
        None => {
            return None;
        },
    };
    proof {
        lemma_skip_bounds(c@, j as nat);
    }
    let e = skip_name_at(c, j);
    if e > j {
        Some((j, e))
    } else {
        None
    }
}

/// Parses the list of names whose first name starts at `c[p]`.
fn names_at(s: &str, c: &Vec<char>, p: usize) -> (r: (Vec<String>, usize))
    requires
        c@ == s@,
        p < c@.len(),
    ensures
        r.0@.map_values(|x: String| x@) == names_from(c@, p as nat).0,
        r.1 as nat == names_from(c@, p as nat).1,
        r.1 <= c@.len(),
    decreases c@.len() - p,
{
    proof {
        lemma_skip_bounds(c@, p as nat);
    }
    let e = skip_name_at(c, p);
    let first = text_between(s, p, e);
    proof {
        lemma_skip_bounds(c@, e as nat);
    }
    let q = skip_spaces_at(c, e);
    if q < c.len() && c[q] == ',' {
        proof {
            lemma_skip_bounds(c@, (q + 1) as nat);
        }
        let q2 = skip_spaces_at(c, q + 1);
        proof {
            lemma_skip_bounds(c@, q2 as nat);
        }
        if skip_name_at(c, q2) > q2 {
            let (rest, end) = names_at(s, c, q2);
            let mut out: Vec<String> = Vec::new();
            out.push(first);
            let ghost rv = rest@.map_values(|x: String| x@);
            let mut rest = rest;
            let mut k: usize = 0;
            let n = rest.len();
            let ghost r0 = rest@;
            while rest.len() > 0
                invariant
                    out@.len() == k + 1,
                    out@[0]@ == c@.subrange(p as int, e as int),
                    k + rest@.len() == n,
                    r0.len() == n,
                    rv == r0.map_values(|x: String| x@),
                    rest@ == r0.subrange(k as int, n as int),
                    forall|j: int| 0 <= j < k ==> (#[trigger] out@[j + 1])@ == rv[j],
                decreases rest@.len(),
            {
                let x = rest.remove(0);
                assert(x == r0[k as int]);
                out.push(x);
                k += 1;
                assert(rest@ == r0.subrange(k as int, n as int));
            }
            let ghost first_v = c@.subrange(p as int, e as int);
            assert forall|i: int| 1 <= i < out@.len() implies out@.map_values(|x: String| x@)[i]
                == (seq![first_v] + rv)[i] by {
                assert(out@[(i - 1) + 1]@ == rv[i - 1]);
            }
            assert(out@.map_values(|x: String| x@) == seq![first_v] + rv);
            return (out, end);
        }
    }
    let mut out: Vec<String> = Vec::new();
    out.push(first);
    assert(out@.map_values(|x: String| x@) == seq![c@.subrange(p as int, e as int)]);
    (out, e)
}

/// Parses a query. Accepted forms: `SELECT COUNT(*) FROM t`,
/// `SELECT a, b FROM t` and `SELECT * FROM t`, with keywords in capitals,
/// names of lowercase letters and `_`, and spaces, tabs or newlines between
/// the words.
pub fn parse_command(command: &str) -> (r: Result<Command, DbError>)
    ensures
        match command_spec(command@) {
            Some(v) => r is Ok && r->Ok_0@ == v && r->Ok_0.has_no_conditions(),
            None => r == Err::<Command, DbError>(DbError::Syntax),
        },
{
    reveal(command_spec);
    let c = chars_of(command);
    let len = c.len();
    let start = match after_select_at(&c) {
        Some(i) => i,
        None => {
            return Err(DbError::Syntax);
        },
    };
    let wc = ['C', 'O', 'U', 'N', 'T', '(', '*', ')'];
    assert(wc@ == kw_count());
    if has_word_at(&c, start, wc.as_slice()) {
        if let Some(j) = spaces1_at(&c, start + 8) {
            if let Some((a, b)) = from_clause_at(&c, j) {
                if b == len {
                    return Ok(
                        Command::Count {
                            table_name: text_between(command, a, b),
                            conditions: Vec::new(),
                        },
                    );
                } else {
                    return Err(DbError::Syntax);
                }
            }
        }
    }
    proof {
        lemma_skip_bounds(c@, start as nat);
    }
    if skip_name_at(&c, start) > start {
        let (names, end) = names_at(command, &c, start);
        if let Some(j) = spaces1_at(&c, end) {
            if let Some((a, b)) = from_clause_at(&c, j) {
                if b == len {
                    return Ok(
                        Command::Select {
                            table_name: text_between(command, a, b),
                            column_names: names,
                            conditions: Vec::new(),
                        },
                    );
                } else {
                    return Err(DbError::Syntax);
                }
            }
        }
    }
    let ws = ['*'];
    assert(ws@ == seq!['*']);
    if has_word_at(&c, start, ws.as_slice()) {
        if let Some(j) = spaces1_at(&c, start + 1) {
            if let Some((a, b)) = from_clause_at(&c, j) {
                if b == len {
                    return Ok(
                        Command::SelectAll {
                            table_name: text_between(command, a, b),
                            conditions: Vec::new(),
                        },
                    );
                }
            }
        }
    }
    Err(DbError::Syntax)
}

/// The column names that `CREATE TABLE` text declares, in order: the first
/// name of each comma-separated clause between the parentheses; what
/// follows it (a type, constraints) is skipped.
pub fn create_table_columns(sql: &str) -> (r: Option<Vec<String>>)
    ensures
        match create_table_spec(sql@) {
            Some(cols) => r is Some && r->Some_0@.map_values(|x: String| x@) == cols,
            None => r is None,
        },
{
    reveal(create_table_spec);
    let c = chars_of(sql);
    let len = c.len();
    let wc = ['C', 'R', 'E', 'A', 'T', 'E'];
    assert(wc@ == kw_create());
    let wt = ['T', 'A', 'B', 'L', 'E'];
    assert(wt@ == kw_table());
    if !has_word_at(&c, 0, wc.as_slice()) {
        return None;
    }
    let i = match spaces1_at(&c, 6) {
        Some(i) => i,
        None => {
            return None;
        },
    };
    if !has_word_at(&c, i, wt.as_slice()) {
        return None;
    }
    let j = match spaces1_at(&c, i + 5) {
        Some(j) => j,
        None => {
            return None;
        },
    };
    proof {
        lemma_skip_bounds(c@, j as nat);
    }
    let ne = skip_name_at(&c, j);
    proof {
        lemma_skip_bounds(c@, ne as nat);
    }
    let k = skip_spaces_at(&c, ne);
    let mut e = len;
    while e > 0 && (c[e - 1] == ' ' || c[e - 1] == '\n' || c[e - 1] == '\t')
        invariant
            e <= len,
            len == c@.len(),
            trim_end(c@, e as nat) == trim_end(c@, len as nat),
        decreases e,
    {
        e -= 1;
    }
    if !(ne > j && k < len && c[k] == '(' && e >= 2 && e - 2 >= k && c[e - 1] == ')') {
        return None;
    }
    assert(trim_end(c@, e as nat) == e as nat);
    let end = e - 1;
    let ghost body_start = (k + 1) as nat;
    let mut out: Vec<String> = Vec::new();
    let mut at = k + 1;
    loop
        invariant
            end < len,
            len == c@.len(),
            c@ == sql@,
            at <= end + 1,
            body_start <= end,
            create_table_spec(sql@) == columns_from(c@, body_start, end as nat),
            columns_from(c@, body_start, end as nat) == match columns_from(c@, at as nat, end as nat) {
                Some(rest) => Some(out@.map_values(|x: String| x@) + rest),
                None => None::<Seq<Seq<char>>>,
            },
        decreases end + 1 - at,
    {
        proof {
            lemma_skip_bounds(c@, at as nat);
        }
        let st = skip_spaces_at(&c, at);
        proof {
            lemma_skip_bounds(c@, st as nat);
        }
        let nm = skip_name_at(&c, st);
        if st >= end || nm == st {
            return None;
        }
        let name = text_between(sql, st, nm);
        let mut ce = nm;
        while ce < end && c[ce] != ','
            invariant
                nm <= ce,
                end < len,
                len == c@.len(),
                next_comma(c@, nm as nat, end as nat) == next_comma(c@, ce as nat, end as nat),
            decreases end - ce,
        {
            ce += 1;
        }
        let ghost before = out@.map_values(|x: String| x@);
        let ghost nv = name@;
        out.push(name);
        assert(out@.map_values(|x: String| x@) == before.push(nv));
        if ce >= end {
            assert(before + seq![nv] == before.push(nv));
            return Some(out);
        }
        proof {
            let rest = columns_from(c@, (ce + 1) as nat, end as nat);
            if rest is Some {
                assert(before + (seq![nv] + rest->Some_0) == before.push(nv) + rest->Some_0);
            }
        }
        at = ce + 1;
    }
}

/// What a query returns.
#[derive(Debug, PartialEq)]
pub enum QueryOutput {
    Count(usize),
    Rows(Vec<Vec<RecordSerial>>),
}

pub enum OutputView {
    Count(nat),
    Rows(Seq<Seq<SerialView>>),
}

pub open spec fn row_view(row: Vec<RecordSerial>) -> Seq<SerialView> {
    row@.map_values(|v: RecordSerial| v@)
}

impl View for QueryOutput {
    type V = OutputView;

    open spec fn view(&self) -> OutputView {
        match self {
            QueryOutput::Count(n) => OutputView::Count(*n as nat),
            QueryOutput::Rows(rows) => OutputView::Rows(
                rows@.map_values(|r: Vec<RecordSerial>| row_view(r)),
            ),
        }
    }
}

/// The position of the first occurrence of `name` in `names`.
pub open spec fn first_index(names: Seq<Seq<char>>, name: Seq<char>) -> Option<int> {
    if exists|i: int| 0 <= i < names.len() && names[i] == name {
        Some(
            choose|i: int|
                0 <= i < names.len() && names[i] == name && forall|j: int|
                    0 <= j < i ==> names[j] != name,
        )
    } else {
        None
    }
}

proof fn lemma_first_index(names: Seq<Seq<char>>, name: Seq<char>, i: int)
    requires
        0 <= i < names.len(),
        names[i] == name,
        forall|j: int| 0 <= j < i ==> names[j] != name,
    ensures
        first_index(names, name) == Some(i),
{
    let c = choose|k: int|
        0 <= k < names.len() && names[k] == name && forall|j: int| 0 <= j < k ==> names[j] != name;
    assert(0 <= c < names.len() && names[c] == name && forall|j: int| 0 <= j < c ==> names[j] != name);
    if c < i {
        assert(names[c] != name);
    } else if c > i {
        assert(names[i] != name);
    }
}

/// The table a query reads.
pub open spec fn queried_table(c: CommandView) -> Seq<char> {
    match c {
        CommandView::Count { table_name } => table_name,
        CommandView::Select { table_name, .. } => table_name,
        CommandView::SelectAll { table_name } => table_name,
    }
}

/// The names of the schema objects of a database, in catalog order.
pub open spec fn table_names(tables: Seq<Table>) -> Seq<Seq<char>> {
    tables.map_values(|t: Table| t.name@)
}

/// The values at the positions `idx` of a row; a position past the end of a
/// shorter row reads as `Null`.
pub open spec fn project(row: Seq<SerialView>, idx: Seq<int>) -> Seq<SerialView> {
    Seq::new(
        idx.len(),
        |j: int|
            if idx[j] < row.len() {
                row[idx[j]]
            } else {
                SerialView::Null
            },
    )
}

/// The rows of the table whose root page is `root`.
pub open spec fn table_rows(db: &Database, root: int) -> Result<Seq<Seq<SerialView>>, DbError> {
    if 1 <= root <= u32::MAX {
        tree_rows(pages_view(&db.pages), db.header, root, db.pages@.len())
    } else {
        Err(DbError::Format)
    }
}

/// What query `q` returns on `db`: a syntax error, an unknown table or
/// column, a table whose statement does not parse, an error met reading the
/// table, or the count, the rows, or the chosen columns of each row in the
/// order the query names them.
pub open spec fn query_spec(q: Seq<char>, db: &Database) -> Result<OutputView, DbError> {
    match command_spec(q) {
        None => Err(DbError::Syntax),
        Some(cmd) => match first_index(table_names(db.tables@), queried_table(cmd)) {
            None => Err(DbError::NotFound),
            Some(ti) => {
                let t = db.tables@[ti];
                let rows = table_rows(db, t.root_page as int);
                match cmd {
                    CommandView::Count { .. } => match rows {
                        Ok(r) => Ok(OutputView::Count(r.len())),
                        Err(e) => Err(e),
                    },
                    CommandView::SelectAll { .. } => match rows {
                        Ok(r) => Ok(OutputView::Rows(r)),
                        Err(e) => Err(e),
                    },
                    CommandView::Select { column_names, .. } => match create_table_spec(t.sql@) {
                        None => Err(DbError::Schema),
                        Some(declared) => if exists|j: int|
                            0 <= j < column_names.len() && (#[trigger] first_index(
                                declared,
                                column_names[j],
                            )) is None {
                            Err(DbError::NotFound)
                        } else {
                            let idx = Seq::new(
                                column_names.len(),
                                |j: int| first_index(declared, column_names[j])->Some_0,
                            );
                            match rows {
                                Ok(r) => Ok(
                                    OutputView::Rows(
                                        r.map_values(|row: Seq<SerialView>| project(row, idx)),
                                    ),
                                ),
                                Err(e) => Err(e),
                            }
                        },
                    },
                }
            },
        },
    }
}

fn find_table(tables: &Vec<Table>, name: &String) -> (r: Option<usize>)
    ensures
        r is Some <==> first_index(table_names(tables@), name@) is Some,
        r is Some ==> r->Some_0 as int == first_index(table_names(tables@), name@)->Some_0
            && r->Some_0 < tables@.len(),
{
    let ghost names = table_names(tables@);
    let mut i: usize = 0;
    while i < tables.len()
        invariant
            names == table_names(tables@),
            i <= tables@.len(),
            forall|j: int| 0 <= j < i ==> names[j] != name@,
        decreases tables@.len() - i,
    {
        assert(names[i as int] == tables@[i as int].name@);
        if tables[i].name == *name {
            proof {
                lemma_first_index(names, name@, i as int);
            }
            return Some(i);
        }
        i += 1;
    }
    None
}

fn find_column(names: &Vec<String>, name: &String) -> (r: Option<usize>)
    ensures
        r is Some <==> first_index(names@.map_values(|x: String| x@), name@) is Some,
        r is Some ==> r->Some_0 as int == first_index(names@.map_values(|x: String| x@), name@)->Some_0,
{
    let ghost nv = names@.map_values(|x: String| x@);
    let mut i: usize = 0;
    while i < names.len()
        invariant
            nv == names@.map_values(|x: String| x@),
            i <= names@.len(),
            forall|j: int| 0 <= j < i ==> nv[j] != name@,
        decreases names@.len() - i,
    {
        if names[i] == *name {
            proof {
                lemma_first_index(nv, name@, i as int);
            }
            return Some(i);
        }
        i += 1;
    }
    None
}

/// A copy of a column value.
fn copy_value(v: &RecordSerial) -> (r: RecordSerial)
    ensures
        r@ == v@,
{
    match v {
        RecordSerial::Null => RecordSerial::Null,
        RecordSerial::I8(x) => RecordSerial::I8(*x),
        RecordSerial::I16(x) => RecordSerial::I16(*x),
        RecordSerial::I24(x) => RecordSerial::I24(*x),
        RecordSerial::I32(x) => RecordSerial::I32(*x),
        RecordSerial::I48(x) => RecordSerial::I48(*x),
        RecordSerial::I64(x) => RecordSerial::I64(*x),
        RecordSerial::F64(x) => RecordSerial::F64(*x),
        RecordSerial::Zero => RecordSerial::Zero,
        RecordSerial::One => RecordSerial::One,
        RecordSerial::Reserved1 => RecordSerial::Reserved1,
        RecordSerial::Reserved2 => RecordSerial::Reserved2,
        RecordSerial::Blob(b) => RecordSerial::Blob(slice_to_vec(b.as_slice())),
        RecordSerial::String(s) => RecordSerial::String(s.clone()),
    }
}

/// The values of `rec` at the positions `idx`.
fn project_record(rec: &Record, idx: &Vec<usize>) -> (r: Vec<RecordSerial>)
    ensures
        row_view(r) == project(rec@, idx@.map_values(|i: usize| i as int)),
{
    let ghost iv = idx@.map_values(|i: usize| i as int);
    let mut out: Vec<RecordSerial> = Vec::new();
    let mut j: usize = 0;
    while j < idx.len()
        invariant
            iv == idx@.map_values(|i: usize| i as int),
            j <= idx@.len(),
            out@.len() == j,
            forall|k: int| 0 <= k < j ==> (#[trigger] out@[k])@ == project(rec@, iv)[k],
        decreases idx@.len() - j,
    {
        let i = idx[j];
        if i < rec.content.len() {
            out.push(copy_value(&rec.content[i]));
        } else {
            out.push(RecordSerial::Null);
        }
        j += 1;
    }
    assert(row_view(out) == project(rec@, iv));
    out
}

/// Moves the values out of each record.
fn all_values(rows: Vec<Record>) -> (r: Vec<Vec<RecordSerial>>)
    ensures
        r@.map_values(|x: Vec<RecordSerial>| row_view(x)) == rows_view(rows@),
{
    let ghost all = rows_view(rows@);
    let mut rows = rows;
    let mut out: Vec<Vec<RecordSerial>> = Vec::new();
    let ghost n = rows@.len();
    while rows.len() > 0
        invariant
            out@.len() + rows@.len() == n,
            all.len() == n,
            rows_view(rows@) == all.subrange(out@.len() as int, n as int),
            forall|k: int| 0 <= k < out@.len() ==> row_view(#[trigger] out@[k]) == all[k],
        decreases rows@.len(),
    {
        let ghost before = rows_view(rows@);
        let rec = rows.remove(0);
        assert(rec@ == before[0]);
        assert(rows_view(rows@) == before.drop_first());
        out.push(rec.content);
    }
    assert(out@.map_values(|x: Vec<RecordSerial>| row_view(x)) == all);
    out
}

/// The positions in `declared` of each name of `wanted`, or `None` if one
/// is not declared.
fn resolve_columns(declared: &Vec<String>, wanted: &Vec<String>) -> (r: Option<Vec<usize>>)
    ensures
        ({
            let dv = declared@.map_values(|x: String| x@);
            let cv = wanted@.map_values(|x: String| x@);
            if exists|j: int| 0 <= j < cv.len() && (#[trigger] first_index(dv, cv[j])) is None {
                r is None
            } else {
                r is Some && r->Some_0@.map_values(|i: usize| i as int) == Seq::new(
                    cv.len(),
                    |j: int| first_index(dv, cv[j])->Some_0,
                )
            }
        }),
{
    let ghost dv = declared@.map_values(|x: String| x@);
    let ghost cv = wanted@.map_values(|x: String| x@);
    let mut idx: Vec<usize> = Vec::new();
    let mut j: usize = 0;
    while j < wanted.len()
        invariant
            dv == declared@.map_values(|x: String| x@),
            cv == wanted@.map_values(|x: String| x@),
            j <= cv.len(),
            idx@.len() == j,
            forall|k: int| 0 <= k < j ==> (#[trigger] first_index(dv, cv[k])) is Some,
            forall|k: int| 0 <= k < j ==> idx@[k] as int == first_index(dv, cv[k])->Some_0,
        decreases cv.len() - j,
    {
        assert(cv[j as int] == wanted@[j as int]@);
        match find_column(declared, &wanted[j]) {
            Some(i) => idx.push(i),
            None => {
                return None;
            },
        }
        j += 1;
    }
    assert(idx@.map_values(|i: usize| i as int) == Seq::new(
        cv.len(),
        |k: int| first_index(dv, cv[k])->Some_0,
    ));
    Some(idx)
}

/// A query on a table that the catalog does not list fails with
/// `NotFound`; in particular a count of such a table is never 0.
pub proof fn lemma_missing_table_not_found(q: Seq<char>, db: &Database)
    requires
        command_spec(q) is Some,
        forall|i: int| 0 <= i < db.tables@.len() ==> (#[trigger] db.tables@[i]).name@
            != queried_table(command_spec(q)->Some_0),
    ensures
        query_spec(q, db) == Err::<OutputView, DbError>(DbError::NotFound),
{
    let names = table_names(db.tables@);
    assert forall|i: int| 0 <= i < names.len() implies names[i] != queried_table(
        command_spec(q)->Some_0,
    ) by {
        assert(names[i] == db.tables@[i].name@);
    }
}

/// The table that query `q` reads, once the catalog resolves its name.
pub open spec fn resolved_root(q: Seq<char>, db: &Database) -> int {
    let ti = first_index(table_names(db.tables@), queried_table(command_spec(q)->Some_0))->Some_0;
    db.tables@[ti].root_page as int
}

/// Whether `q` parses and names a table of `db` whose root page exists.
pub open spec fn query_reaches_root(q: Seq<char>, db: &Database) -> bool {
    &&& command_spec(q) is Some
    &&& first_index(table_names(db.tables@), queried_table(command_spec(q)->Some_0)) is Some
    &&& 1 <= resolved_root(q, db) <= db.pages@.len()
    &&& resolved_root(q, db) <= u32::MAX
}

/// The decoded root page of the table that `q` reads.
pub open spec fn root_page_view(q: Seq<char>, db: &Database) -> crate::page::PageView {
    let root = resolved_root(q, db);
    page_spec(pages_view(&db.pages)[root - 1], page_padding(root), db.header)->Ok_0
}

/// On a table that is a single leaf page, `SELECT COUNT(*)` counts exactly
/// its cells, and `SELECT *` returns one row per cell, in cell-pointer order.
pub proof fn lemma_query_single_leaf(q: Seq<char>, db: &Database)
    requires
        query_reaches_root(q, db),
        ({
            let root = resolved_root(q, db);
            let p = page_spec(pages_view(&db.pages)[root - 1], page_padding(root), db.header);
            p is Ok && p->Ok_0.header.kind == PageType::LeafTable
        }),
    ensures
        command_spec(q)->Some_0 is Count ==> query_spec(q, db) == Ok::<OutputView, DbError>(
            OutputView::Count(root_page_view(q, db).header.number_of_cells as nat),
        ),
        command_spec(q)->Some_0 is SelectAll ==> ({
            let p = root_page_view(q, db);
            &&& query_spec(q, db) is Ok
            &&& query_spec(q, db)->Ok_0 is Rows
            &&& query_spec(q, db)->Ok_0->Rows_0.len() == p.header.number_of_cells
            &&& forall|i: int|
                0 <= i < p.header.number_of_cells ==> #[trigger] query_spec(q, db)->Ok_0->Rows_0[i]
                    == leaf_payload(p.cells[i])
        }),
{
    let root = resolved_root(q, db);
    lemma_leaf_page_rows(pages_view(&db.pages), db.header, root, db.pages@.len());
}

/// On a table whose root is an interior page with two cells and a
/// rightmost child, `SELECT *` returns the rows of the first child, then
/// of the second, then of the rightmost child.
pub proof fn lemma_query_two_level(q: Seq<char>, db: &Database)
    requires
        query_reaches_root(q, db),
        command_spec(q)->Some_0 is SelectAll,
        ({
            let root = resolved_root(q, db);
            let p = page_spec(pages_view(&db.pages)[root - 1], page_padding(root), db.header);
            p is Ok && p->Ok_0.header.kind == PageType::InteriorTable && p->Ok_0.cells.len() == 2
        }),
    ensures
        ({
            let p = root_page_view(q, db);
            let pv = pages_view(&db.pages);
            let f = (db.pages@.len() - 1) as nat;
            let first = tree_rows(pv, db.header, p.cells[0]->InteriorTable_left_child as int, f);
            let second = tree_rows(pv, db.header, p.cells[1]->InteriorTable_left_child as int, f);
            let last = tree_rows(pv, db.header, p.header.page_number->Some_0 as int, f);
            first is Ok && second is Ok && last is Ok ==> query_spec(q, db) == Ok::<
                OutputView,
                DbError,
            >(OutputView::Rows(first->Ok_0 + second->Ok_0 + last->Ok_0))
        }),
{
    let root = resolved_root(q, db);
    lemma_two_level_rows(pages_view(&db.pages), db.header, root, db.pages@.len());
}

/// `SELECT name FROM t`, where `t` declares the columns `id` and `name`,
/// returns the second value of each row of `t` (`Null` for a row too short
/// to have one).
pub proof fn lemma_query_second_column(q: Seq<char>, db: &Database)
    requires
        query_reaches_root(q, db),
        command_spec(q)->Some_0 == (CommandView::Select {
            table_name: queried_table(command_spec(q)->Some_0),
            column_names: seq![seq!['n', 'a', 'm', 'e']],
        }),
        ({
            let ti = first_index(
                table_names(db.tables@),
                queried_table(command_spec(q)->Some_0),
            )->Some_0;
            create_table_spec(db.tables@[ti].sql@) == Some(
                seq![seq!['i', 'd'], seq!['n', 'a', 'm', 'e']],
            )
        }),
        table_rows(db, resolved_root(q, db)) is Ok,
    ensures
        query_spec(q, db) == Ok::<OutputView, DbError>(
            OutputView::Rows(
                table_rows(db, resolved_root(q, db))->Ok_0.map_values(
                    |row: Seq<SerialView>| project(row, seq![1int]),
                ),
            ),
        ),
{
    let declared = seq![seq!['i', 'd'], seq!['n', 'a', 'm', 'e']];
    let name = seq!['n', 'a', 'm', 'e'];
    assert(declared[0] != name) by {
        assert(declared[0].len() != name.len());
    }
    lemma_first_index(declared, name, 1);
    let cols = seq![name];
    assert(!(exists|j: int| 0 <= j < cols.len() && (#[trigger] first_index(declared, cols[j])) is None));
    assert(Seq::new(cols.len(), |j: int| first_index(declared, cols[j])->Some_0) == seq![1int]);
}

/// The rows of the table whose root page is `root`.
fn read_table(db: &Database, root: i64) -> (r: Result<Vec<Record>, DbError>)
    ensures
        match table_rows(db, root as int) {
            Ok(rows) => r is Ok && rows_view(r->Ok_0@) == rows,
            Err(e) => r == Err::<Vec<Record>, DbError>(e),
        },
{
    if root < 1 || root > u32::MAX as i64 {
        return Err(DbError::Format);
    }
    tree_records(&db.pages, &db.header, root as u32)
}

/// Runs a query against a database.
pub fn execute(command: &str, db: &Database) -> (r: Result<QueryOutput, DbError>)
    ensures
        match query_spec(command@, db) {
            Ok(o) => r is Ok && r->Ok_0@ == o,
            Err(e) => r == Err::<QueryOutput, DbError>(e),
        },
{
    let cmd = match parse_command(command) {
        Ok(c) => c,
        Err(e) => {
            return Err(e);
        },
    };
    let ti = match find_table(&db.tables, cmd.table_name()) {
        Some(i) => i,
        None => {
            return Err(DbError::NotFound);
        },
    };
    let table = &db.tables[ti];
    let root = table.root_page;
    let idx: Option<Vec<usize>> = match &cmd {
        Command::Select { column_names, .. } => {
            let declared = match create_table_columns(table.sql.as_str()) {
                Some(d) => d,
                None => {
                    return Err(DbError::Schema);
                },
            };
            match resolve_columns(&declared, column_names) {
                Some(idx) => Some(idx),
                None => {
                    return Err(DbError::NotFound);
                },
            }
        },
        _ => None,
    };
    let rows = match read_table(db, root) {
        Ok(rows) => rows,
        Err(e) => {
            return Err(e);
        },
    };
    match idx {
        None => match &cmd {
            Command::Count { .. } => {
                proof {
                    assert(rows_view(rows@).len() == rows@.len());
                }
                Ok(QueryOutput::Count(rows.len()))
            },
            _ => Ok(QueryOutput::Rows(all_values(rows))),
        },
        Some(idx) => {
            let ghost iv = idx@.map_values(|i: usize| i as int);
            let mut out: Vec<Vec<RecordSerial>> = Vec::new();
            let mut k: usize = 0;
            while k < rows.len()
                invariant
                    iv == idx@.map_values(|i: usize| i as int),
                    k <= rows@.len(),
                    out@.len() == k,
                    forall|m: int| 0 <= m < k ==> row_view(#[trigger] out@[m]) == project(
                        rows@[m]@,
                        iv,
                    ),
                decreases rows@.len() - k,
            {
                out.push(project_record(&rows[k], &idx));
                k += 1;
            }
            assert(out@.map_values(|x: Vec<RecordSerial>| row_view(x)) == rows_view(
                rows@,
            ).map_values(|row: Seq<SerialView>| project(row, iv)));
            Ok(QueryOutput::Rows(out))
        },
    }
}

} // verus!
