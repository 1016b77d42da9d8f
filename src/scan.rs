use vstd::prelude::*;
use vstd::string::*;
use crate::formula::{FormulaType, type_tag};

verus! {

/// The first position at or after `i` that is not a space or a tab.
pub open spec fn skip_ws(t: Seq<char>, i: int) -> int
    decreases t.len() - i,
{
    if 0 <= i < t.len() && (t[i] == ' ' || t[i] == '\t') {
        skip_ws(t, i + 1)
    } else {
        i
    }
}

/// The position of the first `"` at or after `i` on the same line.
pub open spec fn quote_end(t: Seq<char>, i: int) -> Option<int>
    decreases t.len() - i,
{
    if i < 0 || i >= t.len() || t[i] == '\n' {
        None
    } else if t[i] == '"' {
        Some(i)
    } else {
        quote_end(t, i + 1)
    }
}

/// The position of the line break that ends the line holding `i`, or the
/// length of the text.
pub open spec fn line_end(t: Seq<char>, i: int) -> int
    decreases t.len() - i,
{
    if i < 0 || i >= t.len() || t[i] == '\n' {
        i
    } else {
        line_end(t, i + 1)
    }
}

pub open spec fn is_type_key(t: Seq<char>, a: int) -> bool {
    0 <= a && a + 4 <= t.len() && t[a] == 't' && t[a + 1] == 'y' && t[a + 2] == 'p' && t[a + 3] == 'e'
}

/// Position `z` ends a line, or starts a comment.
pub open spec fn line_rest_ok(t: Seq<char>, z: int) -> bool {
    z >= t.len() || t[z] == '\n' || t[z] == '#'
}

pub open spec fn is_key_char(c: char) -> bool {
    ('a' <= c && c <= 'z') || ('A' <= c && c <= 'Z') || ('0' <= c && c <= '9') || c == '_' || c == '-'
}

/// The end of the run of bare-key characters that starts at `a`.
pub open spec fn key_end(t: Seq<char>, a: int) -> int
    decreases t.len() - a,
{
    if 0 <= a < t.len() && is_key_char(t[a]) {
        key_end(t, a + 1)
    } else {
        a
    }
}

/// Positions `from` up to `e` hold no `[`, no `{` and no run of three
/// quotes of one kind: nothing that can open a construct spanning lines.
pub open spec fn one_line_value(t: Seq<char>, from: int, e: int) -> bool {
    forall|j: int|
        from <= j < e ==> #[trigger] t[j] != '[' && t[j] != '{' && !(j + 2 < e && (t[j] == '"' || t[j] == '\'')
            && t[j + 1] == t[j] && t[j + 2] == t[j])
}

/// The line that starts at `i` is blank, a comment, or a one-line
/// `key = value` pair: after it the text is still at top level, outside any
/// table, array or multi-line string.
pub open spec fn plain_line(t: Seq<char>, i: int) -> bool {
    let a = skip_ws(t, i);
    let e = line_end(t, i);
    if a >= t.len() || t[a] == '\n' || t[a] == '#' {
        true
    } else {
        let k = key_end(t, a);
        let c = skip_ws(t, k);
        a < k && c < e && c < t.len() && t[c] == '=' && one_line_value(t, c + 1, e)
    }
}

/// The quoted value of a line `type = "value"` that starts at `i`.
pub open spec fn type_value_at(t: Seq<char>, i: int) -> Option<Seq<char>> {
    let a = skip_ws(t, i);
    if !is_type_key(t, a) {
        None
    } else {
        let b = skip_ws(t, a + 4);
        if !(0 <= b < t.len() && t[b] == '=') {
            None
        } else {
            let c = skip_ws(t, b + 1);
            if !(0 <= c < t.len() && t[c] == '"') {
                None
            } else {
                match quote_end(t, c + 1) {
                    Some(d) => if line_rest_ok(t, skip_ws(t, d + 1)) {
                        Some(t.subrange(c + 1, d))
                    } else {
                        None
                    },
                    None => None,
                }
            }
        }
    }
}

/// The value of the first line `type = "value"` from line start `i` on,
/// where every line before it is plain (see `plain_line`); `None` once a line
/// that is not plain comes first.
pub open spec fn first_type_value(t: Seq<char>, i: int) -> Option<Seq<char>>
    decreases t.len() - i,
{
    if i < 0 || i > t.len() {
        None
    } else {
        match type_value_at(t, i) {
            Some(v) => Some(v),
            None => if !plain_line(t, i) {
                None
            } else {
                let e = line_end(t, i);
                if i <= e < t.len() {
                    first_type_value(t, e + 1)
                } else {
                    None
                }
            },
        }
    }
}

fn skip_ws_exec(t: &str, i: usize, n: usize) -> (r: usize)
    requires
        n == t@.len(),
        i <= n,
    ensures
        r as int == skip_ws(t@, i as int),
        i <= r <= n,
{
    let mut j = i;
    while j < n && (t.get_char(j) == ' ' || t.get_char(j) == '\t')
        invariant
            n == t@.len(),
            i <= j <= n,
            skip_ws(t@, i as int) == skip_ws(t@, j as int),
        decreases n - j,
    {
        j = j + 1;
    }
    j
}

fn quote_end_exec(t: &str, i: usize, n: usize) -> (r: Option<usize>)
    requires
        n == t@.len(),
        i <= n,
    ensures
        match r {
            Some(d) => quote_end(t@, i as int) == Some(d as int) && i <= d < n,
            None => quote_end(t@, i as int) is None,
        },
{
    let mut j = i;
    while j < n
        invariant
            n == t@.len(),
            i <= j <= n,
            quote_end(t@, i as int) == quote_end(t@, j as int),
        decreases n - j,
    {
        let c = t.get_char(j);
        if c == '\n' {
            return None;
        }
        if c == '"' {
            return Some(j);
        }
        j = j + 1;
    }
    None
}

fn line_end_exec(t: &str, i: usize, n: usize) -> (r: usize)
    requires
        n == t@.len(),
        i <= n,
    ensures
        r as int == line_end(t@, i as int),
        i <= r <= n,
{
    let mut j = i;
    while j < n && t.get_char(j) != '\n'
        invariant
            n == t@.len(),
            i <= j <= n,
            line_end(t@, i as int) == line_end(t@, j as int),
        decreases n - j,
    {
        j = j + 1;
    }
    j
}

fn key_char(c: char) -> (r: bool)
    ensures
        r == is_key_char(c),
{
    ('a' <= c && c <= 'z') || ('A' <= c && c <= 'Z') || ('0' <= c && c <= '9') || c == '_' || c == '-'
}

fn key_end_exec(t: &str, i: usize, n: usize) -> (r: usize)
    requires
        n == t@.len(),
        i <= n,
    ensures
        r as int == key_end(t@, i as int),
        i <= r <= n,
{
    let mut j = i;
    while j < n && key_char(t.get_char(j))
        invariant
            n == t@.len(),
            i <= j <= n,
            key_end(t@, i as int) == key_end(t@, j as int),
        decreases n - j,
    {
        j = j + 1;
    }
    j
}

fn one_line_exec(t: &str, from: usize, e: usize, n: usize) -> (r: bool)
    requires
        n == t@.len(),
        from <= e <= n,
    ensures
        r == one_line_value(t@, from as int, e as int),
{
    let mut j = from;
    while j < e
        invariant
            n == t@.len(),
            from <= j <= e <= n,
            forall|q: int|
                from <= q < j ==> #[trigger] t@[q] != '[' && t@[q] != '{' && !(q + 2 < e && (t@[q] == '"' || t@[q] == '\'')
                    && t@[q + 1] == t@[q] && t@[q + 2] == t@[q]),
        decreases e - j,
    {
        let c = t.get_char(j);
        if c == '[' || c == '{' {
            return false;
        }
        if e - j > 2 && (c == '"' || c == '\'') && t.get_char(j + 1) == c && t.get_char(j + 2) == c {
            return false;
        }
        j = j + 1;
    }
    true
}

fn plain_line_exec(t: &str, i: usize, n: usize) -> (r: bool)
    requires
        n == t@.len(),
        i <= n,
    ensures
        r == plain_line(t@, i as int),
{
    let a = skip_ws_exec(t, i, n);
    let e = line_end_exec(t, i, n);
    if a >= n {
        return true;
    }
    let ca = t.get_char(a);
    if ca == '\n' || ca == '#' {
        return true;
    }
    let k = key_end_exec(t, a, n);
    let c = skip_ws_exec(t, k, n);
    if !(a < k && c < e && c < n && t.get_char(c) == '=') {
        return false;
    }
    one_line_exec(t, c + 1, e, n)
}

fn type_value_exec(t: &str, i: usize, n: usize) -> (r: Option<String>)
    requires
        n == t@.len(),
        i <= n,
    ensures
        match r {
            Some(v) => type_value_at(t@, i as int) == Some(v@),
            None => type_value_at(t@, i as int) is None,
        },
{
    let a = skip_ws_exec(t, i, n);
    if !(n >= 4 && a <= n - 4 && t.get_char(a) == 't' && t.get_char(a + 1) == 'y' && t.get_char(a + 2) == 'p'
        && t.get_char(a + 3) == 'e') {
        return None;
    }
    let b = skip_ws_exec(t, a + 4, n);
    if !(b < n && t.get_char(b) == '=') {
        return None;
    }
    let c = skip_ws_exec(t, b + 1, n);
    if !(c < n && t.get_char(c) == '"') {
        return None;
    }
    match quote_end_exec(t, c + 1, n) {
        Some(d) => {
            let z = skip_ws_exec(t, d + 1, n);
            if z >= n || t.get_char(z) == '\n' || t.get_char(z) == '#' {
                Some(t.substring_char(c + 1, d).to_owned())
            } else {
                None
            }
        },
        None => None,
    }
}

/// The kind that the first `type = "..."` line of formula text names, found
/// without parsing the whole text. `None` where a line that is not a plain
/// one-line `key = value` (a table header, an array or a multi-line string
/// that may span lines) comes first, where no such line exists, or where its
/// value names no kind: the caller then parses the whole text.
pub fn type_hint(content: &str) -> (r: Option<FormulaType>)
    ensures
        match r {
            Some(t) => first_type_value(content@, 0) == Some(type_tag(t)),
            None => !exists|t: FormulaType| first_type_value(content@, 0) == Some(type_tag(t)),
        },
{
    let n = content.unicode_len();
    let mut i: usize = 0;
    while i <= n
        invariant
            n == content@.len(),
            i <= n + 1,
            first_type_value(content@, 0) == first_type_value(content@, i as int),
        decreases n + 1 - i,
    {
        match type_value_exec(content, i, n) {
            Some(v) => {
                return FormulaType::from_tag(v.as_str());
            },
            None => {},
        }
        if !plain_line_exec(content, i, n) {
            return None;
        }
        let e = line_end_exec(content, i, n);
        if e < n {
            i = e + 1;
        } else {
            return None;
        }
    }
    None
}

} // verus!
