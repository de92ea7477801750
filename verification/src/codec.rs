//! The text codec's reading side: a line-oriented, forgiving tokenizer over a
//! scripting-language-flavoured text, and the parse state machine that builds
//! a raw bundle out of it.

use vstd::prelude::*;

use crate::chars::string_from_chars;
use crate::numtext::{all_digits, digits_to_u64, digits_val, is_digit, spec_parse_u64};
use crate::timefmt::{parse_rfc2822, rfc2822_parse, TS_MAX};

verus! {

pub open spec fn is_ws(c: char) -> bool {
    c == ' ' || c == '\t'
}

/// First index at or after `i` that does not hold a space or tab.
pub open spec fn skip_ws(l: Seq<char>, i: int) -> int
    decreases l.len() - i when 0 <= i <= l.len()
{
    if i < l.len() && is_ws(l[i]) {
        skip_ws(l, i + 1)
    } else {
        i
    }
}

/// First index at or after `i` that does not hold a decimal digit.
pub open spec fn scan_digits(l: Seq<char>, i: int) -> int
    decreases l.len() - i when 0 <= i <= l.len()
{
    if i < l.len() && is_digit(l[i]) {
        scan_digits(l, i + 1)
    } else {
        i
    }
}

/// First index at or after `i` that holds a space or tab.
pub open spec fn scan_nonws(l: Seq<char>, i: int) -> int
    decreases l.len() - i when 0 <= i <= l.len()
{
    if i < l.len() && !is_ws(l[i]) {
        scan_nonws(l, i + 1)
    } else {
        i
    }
}

/// First index at or after `i` that does not hold `=`.
pub open spec fn scan_eq(l: Seq<char>, i: int) -> int
    decreases l.len() - i when 0 <= i <= l.len()
{
    if i < l.len() && l[i] == '=' {
        scan_eq(l, i + 1)
    } else {
        i
    }
}

/// `skip_ws` stops exactly at the first non-blank.
pub proof fn lemma_skip_ws_unique(l: Seq<char>, i: int, k: int)
    requires
        0 <= i <= k <= l.len(),
        forall|m: int| i <= m < k ==> is_ws(l[m]),
        k < l.len() ==> !is_ws(l[k]),
    ensures
        skip_ws(l, i) == k,
    decreases k - i,
{
    if i < k {
        lemma_skip_ws_unique(l, i + 1, k);
    }
}

/// `scan_nonws` stops exactly at the first blank.
pub proof fn lemma_scan_nonws_unique(l: Seq<char>, i: int, k: int)
    requires
        0 <= i <= k <= l.len(),
        forall|m: int| i <= m < k ==> !is_ws(l[m]),
        k < l.len() ==> is_ws(l[k]),
    ensures
        scan_nonws(l, i) == k,
    decreases k - i,
{
    if i < k {
        lemma_scan_nonws_unique(l, i + 1, k);
    }
}

/// `scan_digits` stops exactly at the first non-digit.
pub proof fn lemma_scan_digits_unique(l: Seq<char>, i: int, k: int)
    requires
        0 <= i <= k <= l.len(),
        forall|m: int| i <= m < k ==> is_digit(l[m]),
        k < l.len() ==> !is_digit(l[k]),
    ensures
        scan_digits(l, i) == k,
    decreases k - i,
{
    if i < k {
        lemma_scan_digits_unique(l, i + 1, k);
    }
}

/// What one line of input contributes.
pub enum LineClass {
    /// A quoted numeric token; `val` carries the full decimal value, which
    /// the state machine keeps only when it fits 64 bits.
    ItemTok { val: nat },
    /// A `--#` directive with its key and optional value.
    DirectiveTok { key: Seq<char>, value: Option<Seq<char>> },
    /// Anything else: skipped.
    SkipTok,
}

/// A quoted numeric token: optional blanks, the digits, optional blanks, and
/// the closing quote; anything after the closer is ignored.
pub open spec fn classify_quoted(l: Seq<char>, i: int, q: char) -> LineClass
    recommends
        0 <= i < l.len(),
{
    let j = skip_ws(l, i + 1);
    let k = scan_digits(l, j);
    if k == j {
        LineClass::SkipTok
    } else {
        let m = skip_ws(l, k);
        if m < l.len() && l[m] == q {
            LineClass::ItemTok { val: digits_val(l.subrange(j, k)) }
        } else {
            LineClass::SkipTok
        }
    }
}

/// A long-bracket token `[=*[ 123 ]=*]` with matching `=` counts.
pub open spec fn classify_bracket(l: Seq<char>, i: int) -> LineClass
    recommends
        0 <= i < l.len(),
{
    let e = scan_eq(l, i + 1);
    if e < l.len() && l[e] == '[' {
        let neq = e - (i + 1);
        let j = skip_ws(l, e + 1);
        let k = scan_digits(l, j);
        if k == j {
            LineClass::SkipTok
        } else {
            let m = skip_ws(l, k);
            if m + neq + 1 < l.len() && l[m] == ']' && (forall|p: int|
                m + 1 <= p < m + 1 + neq ==> l[p] == '=') && l[m + 1 + neq] == ']' {
                LineClass::ItemTok { val: digits_val(l.subrange(j, k)) }
            } else {
                LineClass::SkipTok
            }
        }
    } else {
        LineClass::SkipTok
    }
}

/// A directive: `--#`, optional blanks, a key of non-blank characters, and
/// optionally blanks plus the rest of the line as the value.
pub open spec fn classify_directive(l: Seq<char>, i: int) -> LineClass {
    let j = skip_ws(l, i);
    let k = scan_nonws(l, j);
    if k == j {
        LineClass::SkipTok
    } else {
        let m = skip_ws(l, k);
        let value = if m < l.len() {
            Some(l.subrange(m, l.len() as int))
        } else {
            None
        };
        LineClass::DirectiveTok { key: l.subrange(j, k), value }
    }
}

/// What a line of input is: an item token, a directive, or nothing.
pub open spec fn classify(l: Seq<char>) -> LineClass {
    let i = skip_ws(l, 0);
    if i < l.len() && (l[i] == '"' || l[i] == '\'') {
        classify_quoted(l, i, l[i])
    } else if i < l.len() && l[i] == '[' {
        classify_bracket(l, i)
    } else if i + 2 < l.len() && l[i] == '-' && l[i + 1] == '-' && l[i + 2] == '#' {
        classify_directive(l, i + 3)
    } else {
        LineClass::SkipTok
    }
}

/// The parse state machine's state: what has been gathered so far.
pub struct RawParse {
    /// A `bundle` directive has been seen.
    pub started: bool,
    /// A second `bundle` directive has been seen: parsing has stopped.
    pub halted: bool,
    pub name: Seq<char>,
    pub collection: Option<u64>,
    pub updated: Option<i64>,
    pub items: Seq<u64>,
}

pub open spec fn init_raw() -> RawParse {
    RawParse {
        started: false,
        halted: false,
        name: Seq::empty(),
        collection: None,
        updated: None,
        items: Seq::empty(),
    }
}

/// One line's effect on the parse state. Before the first `bundle` directive
/// everything but `bundle` itself is ignored; after a second one nothing
/// changes any more.
pub open spec fn step(st: RawParse, l: Seq<char>) -> RawParse {
    if st.halted {
        st
    } else {
        match classify(l) {
            LineClass::ItemTok { val } => if st.started && val <= u64::MAX {
                RawParse { items: st.items.push(val as u64), ..st }
            } else {
                st
            },
            LineClass::DirectiveTok { key, value } => {
                if key == "bundle"@ {
                    if st.started {
                        RawParse { halted: true, ..st }
                    } else {
                        RawParse { started: true, ..st }
                    }
                } else if !st.started {
                    st
                } else if key == "name"@ {
                    match value {
                        Some(v) => RawParse { name: v, ..st },
                        None => st,
                    }
                } else if key == "collection"@ {
                    match value {
                        Some(v) => match spec_parse_u64(v) {
                            Some(cid) => RawParse { collection: Some(cid), ..st },
                            None => st,
                        },
                        None => st,
                    }
                } else if key == "updated"@ {
                    match value {
                        Some(v) => match rfc2822_parse(v) {
                            Some(t) => if 0 <= t <= TS_MAX {
                                RawParse { updated: Some(t), ..st }
                            } else {
                                st
                            },
                            None => st,
                        },
                        None => st,
                    }
                } else {
                    st
                }
            },
            LineClass::SkipTok => st,
        }
    }
}

pub open spec fn run_lines(st: RawParse, lines: Seq<Seq<char>>) -> RawParse
    decreases lines.len(),
{
    if lines.len() == 0 {
        st
    } else {
        run_lines(step(st, lines[0]), lines.drop_first())
    }
}

/// First index at or after `i` that holds a newline, or the length.
pub open spec fn find_nl(l: Seq<char>, i: int) -> int
    decreases l.len() - i when 0 <= i <= l.len()
{
    if i < l.len() && l[i] != '\n' {
        find_nl(l, i + 1)
    } else {
        i
    }
}

/// A line with one trailing carriage return removed: CRLF endings are
/// tolerated on read.
pub open spec fn strip_cr(l: Seq<char>) -> Seq<char> {
    if l.len() > 0 && l.last() == '\r' {
        l.drop_last()
    } else {
        l
    }
}

proof fn lemma_find_nl_props(l: Seq<char>, i: int)
    requires
        0 <= i <= l.len(),
    ensures
        i <= find_nl(l, i) <= l.len(),
        forall|m: int| i <= m < find_nl(l, i) ==> l[m] != '\n',
        find_nl(l, i) < l.len() ==> l[find_nl(l, i)] == '\n',
    decreases l.len() - i,
{
    if i < l.len() && l[i] != '\n' {
        lemma_find_nl_props(l, i + 1);
    }
}

/// `find_nl` stops exactly at the first newline.
pub proof fn lemma_find_nl_unique(l: Seq<char>, k: int)
    requires
        0 <= k <= l.len(),
        forall|m: int| 0 <= m < k ==> l[m] != '\n',
        k < l.len() ==> l[k] == '\n',
    ensures
        find_nl(l, 0) == k,
{
    lemma_find_nl_props(l, 0);
    let f = find_nl(l, 0);
    if f < k {
        assert(l[f] != '\n');
        assert(f < l.len());
        assert(l[f] == '\n');
    }
    if k < f {
        assert(l[k] != '\n');
    }
}

/// The lines of a text: split on `\n`, one trailing `\r` stripped from each.
pub open spec fn lines_of(s: Seq<char>) -> Seq<Seq<char>>
    decreases s.len() via lines_of_dec
{
    let j = find_nl(s, 0);
    if j == s.len() {
        seq![strip_cr(s)]
    } else {
        seq![strip_cr(s.subrange(0, j))] + lines_of(s.subrange(j + 1, s.len() as int))
    }
}

#[via_fn]
proof fn lines_of_dec(s: Seq<char>) {
    lemma_find_nl_props(s, 0);
}

/// The raw bundle a text parses to.
pub open spec fn spec_parse(s: Seq<char>) -> RawParse {
    run_lines(init_raw(), lines_of(s))
}

fn skip_ws_exec(l: &Vec<char>, i: usize) -> (r: usize)
    requires
        i <= l@.len(),
    ensures
        r == skip_ws(l@, i as int),
        i <= r <= l@.len(),
    decreases l@.len() - i,
{
    if i < l.len() && (l[i] == ' ' || l[i] == '\t') {
        skip_ws_exec(l, i + 1)
    } else {
        i
    }
}

fn scan_digits_exec(l: &Vec<char>, i: usize) -> (r: usize)
    requires
        i <= l@.len(),
    ensures
        r == scan_digits(l@, i as int),
        i <= r <= l@.len(),
    decreases l@.len() - i,
{
    if i < l.len() && '0' <= l[i] && l[i] <= '9' {
        scan_digits_exec(l, i + 1)
    } else {
        i
    }
}

fn scan_nonws_exec(l: &Vec<char>, i: usize) -> (r: usize)
    requires
        i <= l@.len(),
    ensures
        r == scan_nonws(l@, i as int),
        i <= r <= l@.len(),
    decreases l@.len() - i,
{
    if i < l.len() && !(l[i] == ' ' || l[i] == '\t') {
        scan_nonws_exec(l, i + 1)
    } else {
        i
    }
}

fn scan_eq_exec(l: &Vec<char>, i: usize) -> (r: usize)
    requires
        i <= l@.len(),
    ensures
        r == scan_eq(l@, i as int),
        i <= r <= l@.len(),
    decreases l@.len() - i,
{
    if i < l.len() && l[i] == '=' {
        scan_eq_exec(l, i + 1)
    } else {
        i
    }
}

proof fn lemma_scan_digits_props(l: Seq<char>, i: int)
    requires
        0 <= i <= l.len(),
    ensures
        i <= scan_digits(l, i) <= l.len(),
        forall|m: int| i <= m < scan_digits(l, i) ==> is_digit(l[m]),
        scan_digits(l, i) < l.len() ==> !is_digit(l[scan_digits(l, i)]),
    decreases l.len() - i,
{
    if i < l.len() && is_digit(l[i]) {
        lemma_scan_digits_props(l, i + 1);
    }
}

proof fn lemma_scan_eq_props(l: Seq<char>, i: int)
    requires
        0 <= i <= l.len(),
    ensures
        i <= scan_eq(l, i) <= l.len(),
        forall|m: int| i <= m < scan_eq(l, i) ==> l[m] == '=',
        scan_eq(l, i) < l.len() ==> l[scan_eq(l, i)] != '=',
    decreases l.len() - i,
{
    if i < l.len() && l[i] == '=' {
        lemma_scan_eq_props(l, i + 1);
    }
}

/// Compares a character range against a literal.
fn range_eq_str(l: &Vec<char>, from: usize, to: usize, s: &str) -> (r: bool)
    requires
        from <= to <= l@.len(),
    ensures
        r == (l@.subrange(from as int, to as int) == s@),
{
    let key = string_from_chars(l, from, to);
    let lit = String::from_str(s);
    key == lit
}

/// The parse state machine's working state.
pub struct ParseState {
    pub started: bool,
    pub halted: bool,
    pub name: String,
    pub collection: Option<u64>,
    pub updated: Option<i64>,
    pub items: Vec<u64>,
}

impl View for ParseState {
    type V = RawParse;

    open spec fn view(&self) -> RawParse {
        RawParse {
            started: self.started,
            halted: self.halted,
            name: self.name@,
            collection: self.collection,
            updated: self.updated,
            items: self.items@,
        }
    }
}

/// Applies one line to the parse state.
fn step_line(st: &mut ParseState, l: &Vec<char>)
    ensures
        final(st)@ == step(old(st)@, l@),
{
    let n = l.len();
    let i = skip_ws_exec(l, 0);
    if st.halted {
        return ;
    }
    if i < n && (l[i] == '"' || l[i] == '\'') {
        let q = l[i];
        let j = skip_ws_exec(l, i + 1);
        let k = scan_digits_exec(l, j);
        if k == j {
            return ;
        }
        let m = skip_ws_exec(l, k);
        if m < n && l[m] == q {
            proof {
                lemma_scan_digits_props(l@, j as int);
            }
            match digits_to_u64(l, j, k) {
                Some(v) => {
                    if st.started {
                        st.items.push(v);
                    }
                },
                None => {
                },
            }
        }
    } else if i < n && l[i] == '[' {
        let e = scan_eq_exec(l, i + 1);
        if !(e < n && l[e] == '[') {
            return ;
        }
        let neq = e - (i + 1);
        let j = skip_ws_exec(l, e + 1);
        let k = scan_digits_exec(l, j);
        if k == j {
            return ;
        }
        let m = skip_ws_exec(l, k);
        // the closer: `]`, the same number of `=`, `]`
        if n - m > neq + 1 && l[m] == ']' {
            let e2 = scan_eq_exec(l, m + 1);
            proof {
                lemma_scan_eq_props(l@, m as int + 1);
            }
            if e2 >= m + 1 + neq && l[m + 1 + neq] == ']' {
                proof {
                    lemma_scan_digits_props(l@, j as int);
                }
                match digits_to_u64(l, j, k) {
                    Some(v) => {
                        if st.started {
                            st.items.push(v);
                        }
                    },
                    None => {
                    },
                }
            } else {
                proof {
                    if e2 < m + 1 + neq {
                        assert(l@[e2 as int] != '=');
                    }
                    assert(classify_bracket(l@, i as int) is SkipTok);
                }
            }
        } else {
            proof {
                assert(classify_bracket(l@, i as int) is SkipTok);
            }
        }
    } else if n - i > 2 && l[i] == '-' && l[i + 1] == '-' && l[i + 2] == '#' {
        let j = skip_ws_exec(l, i + 3);
        let k = scan_nonws_exec(l, j);
        if k == j {
            return ;
        }
        let m = skip_ws_exec(l, k);
        if range_eq_str(l, j, k, "bundle") {
            if st.started {
                st.halted = true;
            } else {
                st.started = true;
            }
        } else if !st.started {
            return ;
        } else if range_eq_str(l, j, k, "name") {
            if m < n {
                st.name = string_from_chars(l, m, n);
            }
        } else if range_eq_str(l, j, k, "collection") {
            if m < n {
                let vs: usize = if l[m] == '+' {
                    m + 1
                } else {
                    m
                };
                let ghost t = if l@[m as int] == '+' {
                    l@.subrange(m as int, n as int).drop_first()
                } else {
                    l@.subrange(m as int, n as int)
                };
                proof {
                    assert(t =~= l@.subrange(vs as int, n as int));
                }
                let d = scan_digits_exec(l, vs);
                if vs < n && d == n {
                    proof {
                        lemma_scan_digits_props(l@, vs as int);
                    }
                    match digits_to_u64(l, vs, n) {
                        Some(cid) => {
                            st.collection = Some(cid);
                            proof {
                                assert(spec_parse_u64(l@.subrange(m as int, n as int)) == Some(
                                    cid,
                                ));
                            }
                        },
                        None => {
                            proof {
                                assert(spec_parse_u64(l@.subrange(m as int, n as int))
                                    is None);
                            }
                        },
                    }
                } else {
                    proof {
                        lemma_scan_digits_props(l@, vs as int);
                        if vs < n && d < n {
                            assert(!is_digit(l@[d as int]));
                            assert(t[d - vs] == l@[d as int]);
                            assert(!all_digits(t));
                        }
                        assert(spec_parse_u64(l@.subrange(m as int, n as int)) is None);
                    }
                }
            }
        } else if range_eq_str(l, j, k, "updated") {
            if m < n {
                let v = string_from_chars(l, m, n);
                match parse_rfc2822(v.as_str()) {
                    Some(t) => {
                        if 0 <= t && t <= TS_MAX {
                            st.updated = Some(t);
                        }
                    },
                    None => {
                    },
                }
            }
        }
    }
}

/// Runs the parse state machine
/// over the text's lines.
pub(crate) fn parse_raw(text: &Vec<char>) -> (st: ParseState)
    ensures
        st@ == spec_parse(text@),
{
    let mut st = ParseState {
        started: false,
        halted: false,
        name: String::new(),
        collection: None,
        updated: None,
        items: Vec::new(),
    };
    proof {
        assert(st@ == init_raw());
        assert(text@.subrange(0, text@.len() as int) =~= text@);
    }
    let len = text.len();
    let mut p: usize = 0;
    loop
        invariant
            p <= text@.len(),
            len == text@.len(),
            run_lines(init_raw(), lines_of(text@)) == run_lines(
                st@,
                lines_of(text@.subrange(p as int, text@.len() as int)),
            ),
        decreases text@.len() - p + 1,
    {
        let ghost sub = text@.subrange(p as int, len as int);
        // the current line runs to the next newline or the end
        let mut j: usize = p;
        while j < len && text[j] != '\n'
            invariant
                p <= j <= text@.len(),
                len == text@.len(),
                forall|m: int| p <= m < j ==> text@[m] != '\n',
            decreases text@.len() - j,
        {
            j = j + 1;
        }
        proof {
            lemma_find_nl_unique(sub, j - p);
        }
        let to: usize = if j > p && text[j - 1] == '\r' {
            j - 1
        } else {
            j
        };
        let mut line: Vec<char> = Vec::new();
        let mut c: usize = p;
        while c < to
            invariant
                p <= c <= to <= text@.len(),
                line@ == text@.subrange(p as int, c as int),
            decreases to - c,
        {
            line.push(text[c]);
            proof {
                assert(line@ =~= text@.subrange(p as int, c as int + 1));
            }
            c = c + 1;
        }
        proof {
            assert(line@ =~= strip_cr(sub.subrange(0, j - p)));
            assert(sub.subrange(0, j - p) =~= text@.subrange(p as int, j as int));
            if j == len {
                assert(lines_of(sub) == seq![strip_cr(sub)]);
                assert(strip_cr(sub) =~= line@);
            } else {
                assert(sub.subrange(j - p + 1, sub.len() as int) =~= text@.subrange(
                    j as int + 1,
                    len as int,
                ));
            }
        }
        step_line(&mut st, &line);
        if j == len {
            proof {
                assert(run_lines(st@, Seq::<Seq<char>>::empty()) == st@);
                assert(seq![line@].drop_first() =~= Seq::<Seq<char>>::empty());
            }
            return st;
        }
        proof {
            assert((seq![line@] + lines_of(text@.subrange(j as int + 1, len as int))).drop_first()
                =~= lines_of(text@.subrange(j as int + 1, len as int)));
            assert((seq![line@] + lines_of(text@.subrange(j as int + 1, len as int)))[0] == line@);
        }
        p = j + 1;
    }
}

} // verus!
