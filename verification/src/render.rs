//! Template rendering: `{{placeholder}}` substitution.
//!
//! A template is read left to right as a sequence of tokens:
//! - `\{{` is an escape and stands for a literal `{{`;
//! - `{{name}}`, where `name` is the text up to the first `}}` and is a valid
//!   variable name (`[a-z0-9_]+`), is a placeholder;
//! - any other char stands for itself.

use vstd::prelude::*;
use crate::text::{chars_eq_range, chars_of, contains_chars, copy_string, extend_chars, extend_range, str_eq, string_of, views};

verus! {

/// A char allowed in a variable name.
pub open spec fn is_name_char(c: char) -> bool {
    ('a' <= c && c <= 'z') || ('0' <= c && c <= '9') || c == '_'
}

/// A valid variable name: `[a-z0-9_]+`.
pub open spec fn is_name(n: Seq<char>) -> bool {
    n.len() > 0 && forall|i: int| 0 <= i < n.len() ==> #[trigger] is_name_char(n[i])
}

/// `}}` starts at `j`.
pub open spec fn is_close(s: Seq<char>, j: int) -> bool {
    0 <= j && j + 1 < s.len() && s[j] == '}' && s[j + 1] == '}'
}

/// The first `j >= k` where `}}` starts, if any.
pub open spec fn close_from(s: Seq<char>, k: int) -> Option<int>
    decreases s.len() - k,
{
    if k < 0 || k + 1 >= s.len() {
        None
    } else if is_close(s, k) {
        Some(k)
    } else {
        close_from(s, k + 1)
    }
}

/// A token of a template.
pub enum Tok {
    /// `\{{`
    Escape,
    /// `{{name}}`
    Hole(Seq<char>),
    /// any other char
    Plain(char),
}

/// `\{{` starts at `i`.
pub open spec fn is_escape_at(s: Seq<char>, i: int) -> bool {
    0 <= i && i + 2 < s.len() && s[i] == '\\' && s[i + 1] == '{' && s[i + 2] == '{'
}

/// A placeholder `{{name}}` starts at `i`; its closing `}}` is at `close_from(s, i + 2)`.
pub open spec fn is_hole_at(s: Seq<char>, i: int) -> bool {
    &&& 0 <= i && i + 1 < s.len() && s[i] == '{' && s[i + 1] == '{'
    &&& close_from(s, i + 2) is Some
    &&& is_name(s.subrange(i + 2, close_from(s, i + 2)->0))
}

/// The token that starts at `i` and its length.
pub open spec fn tok_at(s: Seq<char>, i: int) -> (Tok, int) {
    if is_escape_at(s, i) {
        (Tok::Escape, 3)
    } else if is_hole_at(s, i) {
        let e = close_from(s, i + 2)->0;
        (Tok::Hole(s.subrange(i + 2, e)), e + 2 - i)
    } else {
        (Tok::Plain(s[i]), 1)
    }
}

pub proof fn lemma_close_from_bounds(s: Seq<char>, k: int)
    ensures
        close_from(s, k) matches Some(j) ==> k <= j && is_close(s, j) && (forall|l: int|
            k <= l < j ==> !is_close(s, l)),
        close_from(s, k) is None && 0 <= k ==> forall|l: int| k <= l ==> !is_close(s, l),
    decreases s.len() - k,
{
    if k < 0 || k + 1 >= s.len() {
    } else if is_close(s, k) {
    } else {
        lemma_close_from_bounds(s, k + 1);
    }
}

/// The tokens of `s` from position `i` on.
pub open spec fn toks_from(s: Seq<char>, i: int) -> Seq<Tok>
    decreases s.len() - i,
{
    if i < 0 || i >= s.len() {
        seq![]
    } else {
        proof {
            lemma_close_from_bounds(s, i + 2);
        }
        let (t, k) = tok_at(s, i);
        seq![t] + toks_from(s, i + k)
    }
}

/// The tokens of a template.
pub open spec fn tokens(s: Seq<char>) -> Seq<Tok> {
    toks_from(s, 0)
}

pub open spec fn open2() -> Seq<char> {
    seq!['{', '{']
}

pub open spec fn close2() -> Seq<char> {
    seq!['}', '}']
}

/// `{{name}}`
pub open spec fn hole_text(n: Seq<char>) -> Seq<char> {
    open2() + n + close2()
}

/// A name has a non-empty value.
pub open spec fn has_value(vals: Map<Seq<char>, Seq<char>>, n: Seq<char>) -> bool {
    vals.contains_key(n) && vals[n].len() > 0
}

/// What one token renders to.
pub open spec fn tok_render(t: Tok, vals: Map<Seq<char>, Seq<char>>) -> Seq<char> {
    match t {
        Tok::Escape => open2(),
        Tok::Hole(n) => if has_value(vals, n) {
            vals[n]
        } else {
            hole_text(n)
        },
        Tok::Plain(c) => seq![c],
    }
}

/// The rendered text of a token sequence.
pub open spec fn render_text(ts: Seq<Tok>, vals: Map<Seq<char>, Seq<char>>) -> Seq<char>
    decreases ts.len(),
{
    if ts.len() == 0 {
        seq![]
    } else {
        render_text(ts.drop_last(), vals) + tok_render(ts.last(), vals)
    }
}

/// Placeholder names without a non-empty value, in order of first appearance.
pub open spec fn missing_names(ts: Seq<Tok>, vals: Map<Seq<char>, Seq<char>>) -> Seq<Seq<char>>
    decreases ts.len(),
{
    if ts.len() == 0 {
        seq![]
    } else {
        let m = missing_names(ts.drop_last(), vals);
        match ts.last() {
            Tok::Hole(n) => if !has_value(vals, n) && !m.contains(n) {
                m.push(n)
            } else {
                m
            },
            _ => m,
        }
    }
}

/// Placeholder names, in order of first appearance, without repeats.
pub open spec fn hole_names(ts: Seq<Tok>) -> Seq<Seq<char>>
    decreases ts.len(),
{
    if ts.len() == 0 {
        seq![]
    } else {
        let m = hole_names(ts.drop_last());
        match ts.last() {
            Tok::Hole(n) => if !m.contains(n) {
                m.push(n)
            } else {
                m
            },
            _ => m,
        }
    }
}

/// What one token becomes when `old` is renamed to `new`.
pub open spec fn tok_renamed(t: Tok, old: Seq<char>, new: Seq<char>) -> Seq<char> {
    match t {
        Tok::Escape => seq!['\\', '{', '{'],
        Tok::Hole(n) => if n == old {
            hole_text(new)
        } else {
            hole_text(n)
        },
        Tok::Plain(c) => seq![c],
    }
}

/// A token sequence written back with `old` renamed to `new`.
pub open spec fn renamed_text(ts: Seq<Tok>, old: Seq<char>, new: Seq<char>) -> Seq<char>
    decreases ts.len(),
{
    if ts.len() == 0 {
        seq![]
    } else {
        renamed_text(ts.drop_last(), old, new) + tok_renamed(ts.last(), old, new)
    }
}

/// A map from variable names to values; a later insert of a name wins.
pub struct ValueMap {
    entries: Vec<(Vec<char>, Vec<char>)>,
}

pub open spec fn entries_map(es: Seq<(Vec<char>, Vec<char>)>) -> Map<Seq<char>, Seq<char>>
    decreases es.len(),
{
    if es.len() == 0 {
        Map::empty()
    } else {
        entries_map(es.drop_last()).insert(es.last().0@, es.last().1@)
    }
}

proof fn lemma_entries_map_last(es: Seq<(Vec<char>, Vec<char>)>, j: int)
    requires
        0 <= j < es.len(),
        forall|l: int| j < l < es.len() ==> es[l].0@ != es[j].0@,
    ensures
        entries_map(es).contains_key(es[j].0@),
        entries_map(es)[es[j].0@] == es[j].1@,
    decreases es.len(),
{
    if j < es.len() - 1 {
        lemma_entries_map_last(es.drop_last(), j);
    }
}

proof fn lemma_entries_map_absent(es: Seq<(Vec<char>, Vec<char>)>, k: Seq<char>)
    requires
        forall|l: int| 0 <= l < es.len() ==> es[l].0@ != k,
    ensures
        !entries_map(es).contains_key(k),
    decreases es.len(),
{
    if es.len() > 0 {
        lemma_entries_map_absent(es.drop_last(), k);
    }
}

impl View for ValueMap {
    type V = Map<Seq<char>, Seq<char>>;

    closed spec fn view(&self) -> Map<Seq<char>, Seq<char>> {
        entries_map(self.entries@)
    }
}

impl ValueMap {
    pub fn new() -> (m: ValueMap)
        ensures
            m@ == Map::<Seq<char>, Seq<char>>::empty(),
    {
        ValueMap { entries: Vec::new() }
    }

    /// Sets `key` to `value`, replacing an earlier value.
    pub fn insert(&mut self, key: &str, value: &str)
        ensures
            final(self)@ == old(self)@.insert(key@, value@),
    {
        let k = chars_of(key);
        let v = chars_of(value);
        self.entries.push((k, v));
        assert(self.entries@.drop_last() =~= old(self).entries@);
    }

    /// The value of `s[from..to]`, if the map holds that name.
    pub fn get_range(&self, s: &[char], from: usize, to: usize) -> (r: Option<&Vec<char>>)
        requires
            from <= to <= s@.len(),
        ensures
            r is Some <==> self@.contains_key(s@.subrange(from as int, to as int)),
            r matches Some(v) ==> v@ == self@[s@.subrange(from as int, to as int)],
    {
        let ghost k = s@.subrange(from as int, to as int);
        let mut i = self.entries.len();
        while i > 0
            invariant
                i <= self.entries@.len(),
                from <= to <= s@.len(),
                k == s@.subrange(from as int, to as int),
                forall|l: int| i <= l < self.entries@.len() ==> self.entries@[l].0@ != k,
            decreases i,
        {
            i = i - 1;
            if chars_eq_range(self.entries[i].0.as_slice(), s, from, to) {
                proof {
                    lemma_entries_map_last(self.entries@, i as int);
                }
                return Some(&self.entries[i].1);
            }
        }
        proof {
            lemma_entries_map_absent(self.entries@, k);
        }
        None
    }

    /// The value of `key`, if the map holds it.
    pub fn get(&self, key: &str) -> (r: Option<String>)
        ensures
            r is Some <==> self@.contains_key(key@),
            r matches Some(v) ==> v@ == self@[key@],
    {
        let k = chars_of(key);
        let n = k.len();
        assert(k@.subrange(0, n as int) =~= k@);
        match self.get_range(k.as_slice(), 0, n) {
            Some(v) => Some(string_of(v.as_slice())),
            None => None,
        }
    }
}

/// The result of rendering a template.
#[derive(Debug)]
pub struct RenderResult {
    pub text: String,
    /// placeholders that had no (non-empty) value and were left untouched
    pub missing: Vec<String>,
}

/// Whether `s[from..to]` is a valid variable name.
fn name_in_range(s: &[char], from: usize, to: usize) -> (r: bool)
    requires
        from <= to <= s@.len(),
    ensures
        r == is_name(s@.subrange(from as int, to as int)),
{
    let ghost n = s@.subrange(from as int, to as int);
    if from == to {
        return false;
    }
    let mut i = from;
    while i < to
        invariant
            from <= i <= to,
            to <= s@.len(),
            n == s@.subrange(from as int, to as int),
            forall|j: int| 0 <= j < i - from ==> is_name_char(#[trigger] n[j]),
        decreases to - i,
    {
        let c = s[i];
        if !(('a' <= c && c <= 'z') || ('0' <= c && c <= '9') || c == '_') {
            assert(n[i - from] == c);
            assert(!is_name_char(n[i - from]));
            return false;
        }
        i = i + 1;
    }
    true
}

/// Whether `name` is a valid variable name: `[a-z0-9_]+`.
pub fn is_valid_name(name: &str) -> (r: bool)
    ensures
        r == is_name(name@),
{
    let cs = chars_of(name);
    let n = cs.len();
    assert(cs@.subrange(0, n as int) =~= cs@);
    name_in_range(cs.as_slice(), 0, n)
}

/// The first `}}` at or after `k`.
fn find_close(s: &[char], k: usize) -> (r: Option<usize>)
    ensures
        r matches Some(j) ==> close_from(s@, k as int) == Some(j as int),
        r is None ==> close_from(s@, k as int) is None,
{
    let n = s.len();
    let mut j = k;
    while j < n && n - j > 1
        invariant
            n == s@.len(),
            k <= j,
            close_from(s@, k as int) == close_from(s@, j as int),
        decreases n - j,
    {
        if s[j] == '}' && s[j + 1] == '}' {
            return Some(j);
        }
        j = j + 1;
    }
    None
}

/// Reads the token at `i`: 0 = escape (length 3), 1 = placeholder closing at
/// the returned index, 2 = a plain char.
fn scan_at(s: &[char], i: usize) -> (r: (u8, usize))
    requires
        i < s@.len(),
    ensures
        r.0 == 0 ==> is_escape_at(s@, i as int) && tok_at(s@, i as int) == (Tok::Escape, 3int),
        r.0 == 1 ==> is_hole_at(s@, i as int) && close_from(s@, i + 2) == Some(r.1 as int)
            && tok_at(s@, i as int) == (Tok::Hole(s@.subrange(i + 2, r.1 as int)), r.1 + 2 - i),
        r.0 == 2 ==> tok_at(s@, i as int) == (Tok::Plain(s@[i as int]), 1int),
        r.0 <= 2,
        r.0 == 1 ==> i + 2 <= r.1 && r.1 + 2 <= s@.len(),
{
    let n = s.len();
    if s[i] == '\\' && n - i > 2 && s[i + 1] == '{' && s[i + 2] == '{' {
        return (0, 0);
    }
    if s[i] == '{' && n - i > 1 && s[i + 1] == '{' {
        match find_close(s, i + 2) {
            Some(e) => {
                proof {
                    lemma_close_from_bounds(s@, i + 2);
                }
                if name_in_range(s, i + 2, e) {
                    return (1, e);
                }
            },
            None => {},
        }
    }
    (2, 0)
}

proof fn lemma_toks_step(s: Seq<char>, i: int)
    requires
        0 <= i < s.len(),
    ensures
        tok_at(s, i).1 >= 1,
        i + tok_at(s, i).1 <= s.len(),
        toks_from(s, i) == seq![tok_at(s, i).0] + toks_from(s, i + tok_at(s, i).1),
{
    lemma_close_from_bounds(s, i + 2);
}

proof fn lemma_prefix_step(pre: Seq<Tok>, s: Seq<char>, i: int)
    requires
        0 <= i < s.len(),
        pre + toks_from(s, i) == tokens(s),
    ensures
        pre.push(tok_at(s, i).0) + toks_from(s, i + tok_at(s, i).1) == tokens(s),
{
    lemma_toks_step(s, i);
    assert(pre.push(tok_at(s, i).0) + toks_from(s, i + tok_at(s, i).1) =~= pre + toks_from(s, i));
}

proof fn lemma_toks_end(s: Seq<char>, i: int)
    requires
        i >= s.len(),
    ensures
        toks_from(s, i) == Seq::<Tok>::empty(),
{
}

/// Converts names held as chars to strings.
fn strings_of(v: &Vec<Vec<char>>) -> (r: Vec<String>)
    ensures
        views(r@) == v@.map_values(|x: Vec<char>| x@),
{
    let mut r: Vec<String> = Vec::new();
    let n = v.len();
    let mut i: usize = 0;
    while i < n
        invariant
            n == v@.len(),
            i <= n,
            views(r@) == v@.take(i as int).map_values(|x: Vec<char>| x@),
        decreases n - i,
    {
        let ghost before = views(r@);
        r.push(string_of(v[i].as_slice()));
        assert(views(r@) =~= before.push(v@[i as int]@));
        assert(v@.take(i + 1) =~= v@.take(i as int).push(v@[i as int]));
        assert(views(r@) =~= v@.take(i + 1).map_values(|x: Vec<char>| x@));
        i = i + 1;
    }
    assert(v@.take(n as int) =~= v@);
    r
}

/// Returns placeholder names in order of first appearance (deduplicated).
pub fn placeholders(content: &str) -> (r: Vec<String>)
    ensures
        views(r@) == hole_names(tokens(content@)),
{
    let s = chars_of(content);
    let n = s.len();
    let mut out: Vec<Vec<char>> = Vec::new();
    let mut i: usize = 0;
    let ghost mut pre: Seq<Tok> = seq![];
    assert(pre + toks_from(s@, 0) =~= tokens(s@));
    while i < n
        invariant
            n == s@.len(),
            s@ == content@,
            i <= n,
            pre + toks_from(s@, i as int) == tokens(s@),
            out@.map_values(|x: Vec<char>| x@) == hole_names(pre),
        decreases n - i,
    {
        let (kind, e) = scan_at(s.as_slice(), i);
        proof {
            lemma_prefix_step(pre, s@, i as int);
            lemma_toks_step(s@, i as int);
        }
        let ghost t = tok_at(s@, i as int).0;
        if kind == 0 {
            i = i + 3;
        } else if kind == 1 {
            let mut name: Vec<char> = Vec::new();
            extend_range(&mut name, s.as_slice(), i + 2, e);
            if !contains_chars(&out, name.as_slice()) {
                out.push(name);
            }
            i = e + 2;
        } else {
            i = i + 1;
        }
        proof {
            let p2 = pre.push(t);
            assert(p2.drop_last() =~= pre);
            assert(out@.map_values(|x: Vec<char>| x@) =~= hole_names(p2));
            pre = p2;
        }
    }
    proof {
        lemma_toks_end(s@, i as int);
        assert(pre =~= tokens(s@));
    }
    strings_of(&out)
}

/// Renders content with the given values. A placeholder is substituted only
/// when a NON-EMPTY value exists; an unknown name or an empty value leaves
/// `{{name}}` in place and is reported in `missing`. `\{{` unescapes to `{{`.
///
/// Empty counts as missing because every recipe carries every variable, so
/// "not filled in" is expressed as an empty value rather than a missing key.
pub fn render(content: &str, values: &ValueMap) -> (r: RenderResult)
    ensures
        r.text@ == render_text(tokens(content@), values@),
        views(r.missing@) == missing_names(tokens(content@), values@),
{
    let s = chars_of(content);
    let n = s.len();
    let mut text: Vec<char> = Vec::new();
    let mut missing: Vec<Vec<char>> = Vec::new();
    let mut i: usize = 0;
    let ghost mut pre: Seq<Tok> = seq![];
    assert(pre + toks_from(s@, 0) =~= tokens(s@));
    while i < n
        invariant
            n == s@.len(),
            s@ == content@,
            i <= n,
            pre + toks_from(s@, i as int) == tokens(s@),
            text@ == render_text(pre, values@),
            missing@.map_values(|x: Vec<char>| x@) == missing_names(pre, values@),
        decreases n - i,
    {
        let (kind, e) = scan_at(s.as_slice(), i);
        proof {
            lemma_prefix_step(pre, s@, i as int);
            lemma_toks_step(s@, i as int);
        }
        let ghost t = tok_at(s@, i as int).0;
        if kind == 0 {
            text.push('{');
            text.push('{');
            i = i + 3;
        } else if kind == 1 {
            let v = values.get_range(s.as_slice(), i + 2, e);
            let filled = match v {
                Some(v) => v.len() > 0,
                None => false,
            };
            if filled {
                extend_chars(&mut text, v.unwrap().as_slice());
            } else {
                text.push('{');
                text.push('{');
                extend_range(&mut text, s.as_slice(), i + 2, e);
                text.push('}');
                text.push('}');
                let mut name: Vec<char> = Vec::new();
                extend_range(&mut name, s.as_slice(), i + 2, e);
                if !contains_chars(&missing, name.as_slice()) {
                    missing.push(name);
                }
            }
            i = e + 2;
        } else {
            text.push(s[i]);
            i = i + 1;
        }
        proof {
            let p2 = pre.push(t);
            assert(p2.drop_last() =~= pre);
            assert(text@ =~= render_text(p2, values@));
            assert(missing@.map_values(|x: Vec<char>| x@) =~= missing_names(p2, values@));
            pre = p2;
        }
    }
    proof {
        lemma_toks_end(s@, i as int);
        assert(pre =~= tokens(s@));
    }
    RenderResult { text: string_of(text.as_slice()), missing: strings_of(&missing) }
}

/// Rewrites every `{{old}}` placeholder to `{{new}}`, leaving escaped
/// `\{{old}}` and any other text untouched. Nothing changes when `old` equals
/// `new` or either is not a valid name.
pub fn rename_placeholder(content: &str, old: &str, new: &str) -> (r: String)
    ensures
        r@ == (if old@ == new@ || !is_name(old@) || !is_name(new@) {
            content@
        } else {
            renamed_text(tokens(content@), old@, new@)
        }),
{
    if str_eq(old, new) || !is_valid_name(old) || !is_valid_name(new) {
        return copy_string(content);
    }
    let s = chars_of(content);
    let o = chars_of(old);
    let nw = chars_of(new);
    let n = s.len();
    let mut out: Vec<char> = Vec::new();
    let mut i: usize = 0;
    let ghost mut pre: Seq<Tok> = seq![];
    assert(pre + toks_from(s@, 0) =~= tokens(s@));
    while i < n
        invariant
            n == s@.len(),
            s@ == content@,
            o@ == old@,
            nw@ == new@,
            i <= n,
            pre + toks_from(s@, i as int) == tokens(s@),
            out@ == renamed_text(pre, old@, new@),
        decreases n - i,
    {
        let (kind, e) = scan_at(s.as_slice(), i);
        proof {
            lemma_prefix_step(pre, s@, i as int);
            lemma_toks_step(s@, i as int);
        }
        let ghost t = tok_at(s@, i as int).0;
        if kind == 0 {
            out.push('\\');
            out.push('{');
            out.push('{');
            i = i + 3;
        } else if kind == 1 {
            out.push('{');
            out.push('{');
            if chars_eq_range(o.as_slice(), s.as_slice(), i + 2, e) {
                extend_chars(&mut out, nw.as_slice());
            } else {
                extend_range(&mut out, s.as_slice(), i + 2, e);
            }
            out.push('}');
            out.push('}');
            i = e + 2;
        } else {
            out.push(s[i]);
            i = i + 1;
        }
        proof {
            let p2 = pre.push(t);
            assert(p2.drop_last() =~= pre);
            assert(out@ =~= renamed_text(p2, old@, new@));
            pre = p2;
        }
    }
    proof {
        lemma_toks_end(s@, i as int);
        assert(pre =~= tokens(s@));
    }
    string_of(out.as_slice())
}

// ---------- laws ----------

/// `placeholders` lists each name once.
pub proof fn lemma_hole_names_distinct(ts: Seq<Tok>)
    ensures
        hole_names(ts).no_duplicates(),
    decreases ts.len(),
{
    if ts.len() > 0 {
        lemma_hole_names_distinct(ts.drop_last());
    }
}

/// Every name `render` reports missing is a placeholder of the template,
/// and none is reported twice.
pub proof fn lemma_missing_are_placeholders(ts: Seq<Tok>, vals: Map<Seq<char>, Seq<char>>)
    ensures
        forall|k: int|
            0 <= k < missing_names(ts, vals).len() ==> hole_names(ts).contains(
                #[trigger] missing_names(ts, vals)[k],
            ) && !has_value(vals, missing_names(ts, vals)[k]),
        missing_names(ts, vals).no_duplicates(),
    decreases ts.len(),
{
    if ts.len() > 0 {
        let pre = ts.drop_last();
        lemma_missing_are_placeholders(pre, vals);
        let m = missing_names(pre, vals);
        let h = hole_names(pre);
        assert forall|k: int| 0 <= k < missing_names(ts, vals).len() implies hole_names(ts).contains(
            #[trigger] missing_names(ts, vals)[k],
        ) && !has_value(vals, missing_names(ts, vals)[k]) by {
            let x = missing_names(ts, vals)[k];
            if k < m.len() {
                assert(x == m[k]);
                assert(h.contains(x));
                let j = choose|j: int| 0 <= j < h.len() && h[j] == x;
                match ts.last() {
                    Tok::Hole(n) => {
                        if !h.contains(n) {
                            assert(hole_names(ts)[j] == x);
                        }
                    },
                    _ => {},
                }
            } else {
                match ts.last() {
                    Tok::Hole(n) => {
                        assert(x == n);
                        if !h.contains(n) {
                            assert(hole_names(ts)[h.len() as int] == n);
                        }
                    },
                    _ => {},
                }
            }
        }
    }
}

/// When every placeholder has a non-empty value, nothing is missing and no
/// `{{name}}` is left in place.
pub proof fn lemma_all_filled(ts: Seq<Tok>, vals: Map<Seq<char>, Seq<char>>)
    requires
        forall|k: int| 0 <= k < hole_names(ts).len() ==> has_value(vals, #[trigger] hole_names(ts)[k]),
    ensures
        missing_names(ts, vals) == Seq::<Seq<char>>::empty(),
{
    lemma_missing_are_placeholders(ts, vals);
    let m = missing_names(ts, vals);
    if m.len() > 0 {
        assert(hole_names(ts).contains(m[0]));
        let j = choose|j: int| 0 <= j < hole_names(ts).len() && hole_names(ts)[j] == m[0];
        assert(has_value(vals, hole_names(ts)[j]));
    }
    assert(m =~= Seq::<Seq<char>>::empty());
}

/// With no values at all, every placeholder is missing.
pub proof fn lemma_none_filled(ts: Seq<Tok>)
    ensures
        missing_names(ts, Map::<Seq<char>, Seq<char>>::empty()) == hole_names(ts),
    decreases ts.len(),
{
    if ts.len() > 0 {
        lemma_none_filled(ts.drop_last());
    }
}


/// The missing list is exactly the placeholders that have no non-empty
/// value, in their order of first appearance.
pub proof fn lemma_missing_is_filter(ts: Seq<Tok>, vals: Map<Seq<char>, Seq<char>>)
    ensures
        missing_names(ts, vals) == hole_names(ts).filter(|n: Seq<char>| !has_value(vals, n)),
    decreases ts.len(),
{
    let p = |n: Seq<char>| !has_value(vals, n);
    reveal(Seq::filter);
    if ts.len() == 0 {
        assert(hole_names(ts).filter(p) =~= seq![]);
    } else {
        let pre = ts.drop_last();
        lemma_missing_is_filter(pre, vals);
        let h = hole_names(pre);
        let m = missing_names(pre, vals);
        match ts.last() {
            Tok::Hole(n) => {
                if !h.contains(n) {
                    assert(h.push(n).drop_last() =~= h);
                    if m.contains(n) {
                        h.lemma_filter_contains_rev(p, n);
                    }
                } else {
                    if p(n) {
                        let i = choose|i: int| 0 <= i < h.len() && h[i] == n;
                        h.lemma_filter_contains(p, i);
                    }
                }
            },
            _ => {},
        }
    }
}

proof fn lemma_plain_tokens(s: Seq<char>, i: int)
    requires
        0 <= i <= s.len(),
        forall|j: int| 0 <= j && j + 1 < s.len() ==> !(#[trigger] s[j] == '{' && s[j + 1] == '{'),
    ensures
        toks_from(s, i).len() == s.len() - i,
        forall|k: int| 0 <= k < s.len() - i ==> #[trigger] toks_from(s, i)[k] == Tok::Plain(s[i + k]),
    decreases s.len() - i,
{
    if i < s.len() {
        lemma_close_from_bounds(s, i + 2);
        let x = s[i];
        if i + 2 < s.len() {
            let y = s[i + 1];
        }
        assert(tok_at(s, i) == (Tok::Plain(s[i]), 1int));
        lemma_plain_tokens(s, i + 1);
        assert forall|k: int| 0 <= k < s.len() - i implies #[trigger] toks_from(s, i)[k] == Tok::Plain(s[i + k]) by {
            if k > 0 {
                assert(toks_from(s, i)[k] == toks_from(s, i + 1)[k - 1]);
            }
        }
    }
}

proof fn lemma_plain_render(ts: Seq<Tok>, s: Seq<char>, vals: Map<Seq<char>, Seq<char>>)
    requires
        ts.len() == s.len(),
        forall|k: int| 0 <= k < s.len() ==> #[trigger] ts[k] == Tok::Plain(s[k]),
    ensures
        render_text(ts, vals) == s,
        missing_names(ts, vals) == Seq::<Seq<char>>::empty(),
    decreases s.len(),
{
    if s.len() > 0 {
        assert forall|k: int| 0 <= k < s.drop_last().len() implies #[trigger] ts.drop_last()[k] == Tok::Plain(s.drop_last()[k]) by {
            assert(ts[k] == Tok::Plain(s[k]));
        }
        lemma_plain_render(ts.drop_last(), s.drop_last(), vals);
        assert(ts[s.len() - 1] == Tok::Plain(s[s.len() - 1]));
        assert(s =~= s.drop_last().push(s.last()));
    } else {
        assert(s =~= seq![]);
    }
}

/// A text without `{{` renders unchanged, with nothing missing.
pub proof fn lemma_plain_text_unchanged(s: Seq<char>, vals: Map<Seq<char>, Seq<char>>)
    requires
        forall|j: int| 0 <= j && j + 1 < s.len() ==> !(#[trigger] s[j] == '{' && s[j + 1] == '{'),
    ensures
        render_text(tokens(s), vals) == s,
        missing_names(tokens(s), vals) == Seq::<Seq<char>>::empty(),
{
    lemma_plain_tokens(s, 0);
    lemma_plain_render(tokens(s), s, vals);
}


proof fn lemma_holes_named(s: Seq<char>, i: int)
    requires
        0 <= i,
    ensures
        forall|k: int| 0 <= k < toks_from(s, i).len() ==> (#[trigger] toks_from(s, i)[k] matches Tok::Hole(n) ==> is_name(n)),
    decreases s.len() - i,
{
    if i < s.len() {
        lemma_close_from_bounds(s, i + 2);
        let k0 = tok_at(s, i).1;
        lemma_holes_named(s, i + k0);
        assert forall|k: int| 0 <= k < toks_from(s, i).len() implies (#[trigger] toks_from(s, i)[k] matches Tok::Hole(n) ==> is_name(n)) by {
            if k > 0 {
                assert(toks_from(s, i)[k] == toks_from(s, i + k0)[k - 1]);
            }
        }
    }
}

proof fn lemma_hole_names_from(ts: Seq<Tok>, x: Seq<char>)
    requires
        hole_names(ts).contains(x),
    ensures
        exists|k: int| 0 <= k < ts.len() && ts[k] == Tok::Hole(x),
    decreases ts.len(),
{
    let pre = ts.drop_last();
    if hole_names(pre).contains(x) {
        lemma_hole_names_from(pre, x);
        let k = choose|k: int| 0 <= k < pre.len() && pre[k] == Tok::Hole(x);
        assert(ts[k] == Tok::Hole(x));
    } else {
        assert(ts[ts.len() - 1] == Tok::Hole(x));
    }
}

/// Every placeholder `placeholders` lists is a valid variable name.
pub proof fn lemma_placeholders_valid(s: Seq<char>)
    ensures
        forall|k: int| 0 <= k < hole_names(tokens(s)).len() ==> is_name(#[trigger] hole_names(tokens(s))[k]),
{
    lemma_holes_named(s, 0);
    assert forall|k: int| 0 <= k < hole_names(tokens(s)).len() implies is_name(#[trigger] hole_names(tokens(s))[k]) by {
        let x = hole_names(tokens(s))[k];
        assert(hole_names(tokens(s)).contains(x));
        lemma_hole_names_from(tokens(s), x);
        let j = choose|j: int| 0 <= j < tokens(s).len() && tokens(s)[j] == Tok::Hole(x);
        assert(toks_from(s, 0)[j] matches Tok::Hole(n) ==> is_name(n));
    }
}
/// Every placeholder token named `y` comes after some placeholder token
/// named `x`.
pub open spec fn appears_before(ts: Seq<Tok>, x: Seq<char>, y: Seq<char>) -> bool {
    forall|k: int|
        0 <= k < ts.len() && #[trigger] ts[k] == Tok::Hole(y) ==> exists|k2: int|
            0 <= k2 < k && ts[k2] == Tok::Hole(x)
}

/// `placeholders` lists exactly the names of the template's placeholders,
/// in the order in which each first appears: a name is listed if and only
/// if some placeholder token carries it, and each listed name first appears
/// before every name listed after it.
pub proof fn lemma_placeholders_first_appearance(ts: Seq<Tok>)
    ensures
        forall|x: Seq<char>| #[trigger] hole_names(ts).contains(x) <==> ts.contains(Tok::Hole(x)),
        forall|a: int, b: int|
            0 <= a < b < hole_names(ts).len() ==> appears_before(
                ts,
                #[trigger] hole_names(ts)[a],
                #[trigger] hole_names(ts)[b],
            ),
    decreases ts.len(),
{
    if ts.len() > 0 {
        let pre = ts.drop_last();
        lemma_placeholders_first_appearance(pre);
        let m = hole_names(pre);
        let r = hole_names(ts);
        let last = ts.len() - 1;
        assert forall|x: Seq<char>| #[trigger] r.contains(x) <==> ts.contains(Tok::Hole(x)) by {
            if r.contains(x) {
                lemma_hole_names_from(ts, x);
            }
            if ts.contains(Tok::Hole(x)) {
                let k = choose|k: int| 0 <= k < ts.len() && ts[k] == Tok::Hole(x);
                if k < last {
                    assert(pre[k] == ts[k]);
                    assert(pre.contains(Tok::Hole(x)));
                    assert(m.contains(x));
                    let q = choose|q: int| 0 <= q < m.len() && m[q] == x;
                    assert(r[q] == x);
                } else if !m.contains(x) {
                    assert(r[r.len() - 1] == x);
                } else {
                    let q = choose|q: int| 0 <= q < m.len() && m[q] == x;
                    assert(r[q] == x);
                }
            }
        }
        assert forall|a: int, b: int| 0 <= a < b < r.len() implies appears_before(ts, #[trigger] r[a], #[trigger] r[b]) by {
            assert(r[a] == m[a]);
            assert forall|k: int| 0 <= k < ts.len() && #[trigger] ts[k] == Tok::Hole(r[b]) implies exists|k2: int|
                0 <= k2 < k && ts[k2] == Tok::Hole(r[a]) by {
                if b < m.len() {
                    assert(r[b] == m[b]);
                    if k < last {
                        assert(pre[k] == ts[k]);
                        assert(appears_before(pre, m[a], m[b]));
                        let k2 = choose|k2: int| 0 <= k2 < k && pre[k2] == Tok::Hole(m[a]);
                        assert(ts[k2] == pre[k2]);
                    } else {
                        assert(m.contains(m[b]));
                        assert(pre.contains(Tok::Hole(m[b])));
                        let k1 = choose|k1: int| 0 <= k1 < pre.len() && pre[k1] == Tok::Hole(m[b]);
                        assert(appears_before(pre, m[a], m[b]));
                        let k2 = choose|k2: int| 0 <= k2 < k1 && pre[k2] == Tok::Hole(m[a]);
                        assert(ts[k2] == pre[k2]);
                    }
                } else {
                    let x = r[b];
                    assert(!m.contains(x));
                    assert(!pre.contains(Tok::Hole(x)));
                    if k < last {
                        assert(pre[k] == ts[k]);
                        assert(false);
                    }
                    assert(m.contains(m[a]));
                    assert(pre.contains(Tok::Hole(m[a])));
                    let k2 = choose|k2: int| 0 <= k2 < pre.len() && pre[k2] == Tok::Hole(m[a]);
                    assert(ts[k2] == pre[k2]);
                }
            }
        }
    }
}
proof fn lemma_renamed_concat(a: Seq<Tok>, b: Seq<Tok>, old: Seq<char>, new: Seq<char>)
    ensures
        renamed_text(a + b, old, new) == renamed_text(a, old, new) + renamed_text(b, old, new),
    decreases b.len(),
{
    if b.len() == 0 {
        assert(a + b =~= a);
    } else {
        assert((a + b).drop_last() =~= a + b.drop_last());
        lemma_renamed_concat(a, b.drop_last(), old, new);
    }
}

/// The tokens from `i` on, written back with a name they do not hold
/// renamed, spell the text from `i` on.
proof fn lemma_toks_spell(s: Seq<char>, i: int, old: Seq<char>, new: Seq<char>)
    requires
        0 <= i <= s.len(),
        old == new || !toks_from(s, i).contains(Tok::Hole(old)),
    ensures
        renamed_text(toks_from(s, i), old, new) == s.subrange(i, s.len() as int),
    decreases s.len() - i,
{
    if i == s.len() {
        assert(renamed_text(toks_from(s, i), old, new) =~= s.subrange(i, s.len() as int));
    } else {
        lemma_toks_step(s, i);
        lemma_close_from_bounds(s, i + 2);
        let (t, k) = tok_at(s, i);
        let rest = toks_from(s, i + k);
        assert(toks_from(s, i) == seq![t] + rest);
        assert(old == new || t != Tok::Hole(old)) by {
            assert(toks_from(s, i)[0] == t);
        }
        assert(old == new || !rest.contains(Tok::Hole(old))) by {
            if old != new && rest.contains(Tok::Hole(old)) {
                let q = choose|q: int| 0 <= q < rest.len() && rest[q] == Tok::Hole(old);
                assert(toks_from(s, i)[q + 1] == rest[q]);
            }
        }
        lemma_toks_spell(s, i + k, old, new);
        lemma_renamed_concat(seq![t], rest, old, new);
        let one = seq![t];
        assert(one.drop_last().len() == 0);
        assert(renamed_text(one.drop_last(), old, new) == Seq::<char>::empty());
        assert(one.last() == t);
        assert(renamed_text(one, old, new) =~= tok_renamed(t, old, new));
        assert(tok_renamed(t, old, new) =~= s.subrange(i, i + k)) by {
            if is_escape_at(s, i) {
            } else if is_hole_at(s, i) {
                let e = close_from(s, i + 2)->0;
                assert(hole_text(s.subrange(i + 2, e)) =~= s.subrange(i, i + k));
            }
        }
        assert(s.subrange(i, i + k) + s.subrange(i + k, s.len() as int) =~= s.subrange(i, s.len() as int));
    }
}

/// Renaming a placeholder that the text does not hold leaves the text
/// unchanged; in particular the tokens of a text spell it exactly.
pub proof fn lemma_rename_absent_unchanged(s: Seq<char>, old: Seq<char>, new: Seq<char>)
    requires
        !hole_names(tokens(s)).contains(old),
    ensures
        renamed_text(tokens(s), old, new) == s,
{
    lemma_placeholders_first_appearance(tokens(s));
    lemma_toks_spell(s, 0, old, new);
    assert(s.subrange(0, s.len() as int) =~= s);
}
/// `{{n}}` stands in `s` at `p`, not right after a backslash.
pub open spec fn hole_stands_at(s: Seq<char>, p: int, n: Seq<char>) -> bool {
    &&& 0 <= p && p + n.len() + 4 <= s.len()
    &&& s.subrange(p, p + n.len() + 4) == hole_text(n)
    &&& (p == 0 || s[p - 1] != '\\')
}

proof fn lemma_hole_in_text(s: Seq<char>, i: int, n: Seq<char>)
    requires
        0 <= i <= s.len(),
        toks_from(s, i).contains(Tok::Hole(n)),
        i == 0 || s[i - 1] != '\\' || !(i + 1 < s.len() && s[i] == '{' && s[i + 1] == '{'),
    ensures
        exists|p: int| i <= p && hole_stands_at(s, p, n),
    decreases s.len() - i,
{
    if i < s.len() {
        lemma_toks_step(s, i);
        lemma_close_from_bounds(s, i + 2);
        let (t, k) = tok_at(s, i);
        let rest = toks_from(s, i + k);
        if t == Tok::Hole(n) {
            let e = close_from(s, i + 2)->0;
            assert(n == s.subrange(i + 2, e));
            assert(s.subrange(i, i + n.len() + 4) =~= hole_text(n));
            assert(hole_stands_at(s, i, n));
        } else {
            let q = choose|q: int| 0 <= q < toks_from(s, i).len() && toks_from(s, i)[q] == Tok::Hole(n);
            assert(toks_from(s, i)[0] == t);
            assert(q > 0);
            assert(rest[q - 1] == toks_from(s, i)[q]);
            assert(rest.contains(Tok::Hole(n)));
            let j = i + k;
            if j > 0 && s[j - 1] == '\\' && j + 1 < s.len() && s[j] == '{' && s[j + 1] == '{' {
                if is_escape_at(s, i) {
                    assert(s[j - 1] == '{');
                } else if is_hole_at(s, i) {
                    assert(s[j - 1] == '}');
                } else {
                    assert(j == i + 1);
                    assert(is_escape_at(s, i));
                }
            }
            lemma_hole_in_text(s, j, n);
        }
    } else {
        assert(toks_from(s, i).len() == 0);
    }
}

/// Each name `placeholders` lists stands in the text as `{{name}}`, not
/// right after a backslash.
pub proof fn lemma_placeholders_occur(s: Seq<char>)
    ensures
        forall|n: Seq<char>| #[trigger] hole_names(tokens(s)).contains(n) ==> exists|p: int| hole_stands_at(s, p, n),
{
    lemma_placeholders_first_appearance(tokens(s));
    assert forall|n: Seq<char>| #[trigger] hole_names(tokens(s)).contains(n) implies exists|p: int| hole_stands_at(s, p, n) by {
        lemma_hole_in_text(s, 0, n);
    }
}

// ---------- renaming back ----------

/// A token with `old` renamed to `new`.
pub open spec fn tok_rn(t: Tok, old: Seq<char>, new: Seq<char>) -> Tok {
    match t {
        Tok::Hole(n) => if n == old {
            Tok::Hole(new)
        } else {
            t
        },
        _ => t,
    }
}

/// The text from `i` on with `old` renamed to `new`.
pub open spec fn renamed_from(s: Seq<char>, i: int, old: Seq<char>, new: Seq<char>) -> Seq<char> {
    renamed_text(toks_from(s, i), old, new)
}

/// A run of name chars from `p`, then `}}`.
pub open spec fn name_then_close(y: Seq<char>, p: int) -> bool
    decreases y.len() - p,
{
    if 0 <= p < y.len() && is_name_char(y[p]) {
        is_close(y, p + 1) || name_then_close(y, p + 1)
    } else {
        false
    }
}

proof fn lemma_close_shift(a: Seq<char>, b: Seq<char>, k: int)
    requires
        0 <= k,
    ensures
        close_from(a + b, a.len() + k) == (match close_from(b, k) {
            Some(e) => Some(e + a.len()),
            None => None,
        }),
    decreases b.len() - k,
{
    let y = a + b;
    if k + 1 < b.len() {
        assert(y[a.len() + k] == b[k] && y[a.len() + k + 1] == b[k + 1]);
        if !is_close(b, k) {
            lemma_close_shift(a, b, k + 1);
        }
    }
}

proof fn lemma_tok_shift(a: Seq<char>, b: Seq<char>, j: int)
    requires
        0 <= j < b.len(),
    ensures
        tok_at(a + b, a.len() + j) == tok_at(b, j),
{
    let y = a + b;
    let q = a.len() + j;
    assert(y[q] == b[j]);
    if j + 1 < b.len() {
        assert(y[q + 1] == b[j + 1]);
    }
    if j + 2 < b.len() {
        assert(y[q + 2] == b[j + 2]);
    }
    assert(is_escape_at(y, q) == is_escape_at(b, j));
    lemma_close_shift(a, b, j + 2);
    if let Some(e) = close_from(b, j + 2) {
        lemma_close_from_bounds(b, j + 2);
        assert(y.subrange(q + 2, e + a.len()) =~= b.subrange(j + 2, e));
    }
    assert(is_hole_at(y, q) == is_hole_at(b, j));
}

proof fn lemma_toks_shift(a: Seq<char>, b: Seq<char>, j: int)
    requires
        0 <= j,
    ensures
        toks_from(a + b, a.len() + j) == toks_from(b, j),
    decreases b.len() - j,
{
    if j < b.len() {
        lemma_toks_step(b, j);
        lemma_toks_step(a + b, a.len() + j);
        lemma_tok_shift(a, b, j);
        lemma_toks_shift(a, b, j + tok_at(b, j).1);
    }
}

proof fn lemma_ntc_shift(a: Seq<char>, b: Seq<char>, k: int)
    requires
        0 <= k,
    ensures
        name_then_close(a + b, a.len() + k) == name_then_close(b, k),
    decreases b.len() - k,
{
    let y = a + b;
    if k < b.len() {
        assert(y[a.len() + k] == b[k]);
        if k + 2 < b.len() {
            assert(y[a.len() + k + 1] == b[k + 1] && y[a.len() + k + 2] == b[k + 2]);
        }
        lemma_ntc_shift(a, b, k + 1);
    }
}

/// A placeholder's name runs up to its closing `}}`.
proof fn lemma_ntc_close(y: Seq<char>, p: int)
    requires
        0 <= p,
    ensures
        (close_from(y, p) is Some && is_name(y.subrange(p, close_from(y, p)->0))) == name_then_close(y, p),
    decreases y.len() - p,
{
    if p + 1 < y.len() && !is_close(y, p) {
        lemma_ntc_close(y, p + 1);
        lemma_close_from_bounds(y, p + 1);
        assert(close_from(y, p) == close_from(y, p + 1));
        if let Some(e) = close_from(y, p + 1) {
            let w = y.subrange(p, e);
            let w1 = y.subrange(p + 1, e);
            assert(w.len() > 0 && w[0] == y[p]);
            assert(w1 =~= w.drop_first());
            if e == p + 1 {
                assert(is_close(y, p + 1));
                assert(is_name(w) == is_name_char(y[p]));
            } else {
                assert(!is_close(y, p + 1));
                if is_name(w) {
                    assert forall|q: int| 0 <= q < w1.len() implies #[trigger] is_name_char(w1[q]) by {
                        assert(w1[q] == w[q + 1]);
                    }
                    assert(is_name(w1));
                }
                if is_name_char(y[p]) && is_name(w1) {
                    assert forall|q: int| 0 <= q < w.len() implies #[trigger] is_name_char(w[q]) by {
                        if q > 0 {
                            assert(w[q] == w1[q - 1]);
                        }
                    }
                }
            }
        } else {
            assert(!is_close(y, p + 1));
        }
    } else if p + 1 < y.len() {
        assert(y.subrange(p, p).len() == 0);
    } else if p < y.len() {
        assert(!name_then_close(y, p + 1));
    }
}

/// The renamed text from `j` on starts with the same chars as the text.
proof fn lemma_renamed_front(s: Seq<char>, j: int, old: Seq<char>, new: Seq<char>)
    requires
        0 <= j <= s.len(),
        is_name(new),
    ensures
        renamed_from(s, j, old, new).len() == 0 <==> j == s.len(),
        j < s.len() ==> renamed_from(s, j, old, new)[0] == s[j],
        j + 1 < s.len() ==> renamed_from(s, j, old, new).len() >= 2 && renamed_from(s, j, old, new)[1] == s[j + 1],
        j + 1 == s.len() ==> renamed_from(s, j, old, new).len() == 1,
    decreases s.len() - j,
{
    if j < s.len() {
        lemma_toks_step(s, j);
        lemma_close_from_bounds(s, j + 2);
        let (t, k) = tok_at(s, j);
        let rest = toks_from(s, j + k);
        lemma_renamed_concat(seq![t], rest, old, new);
        let one = seq![t];
        assert(one.drop_last().len() == 0);
        assert(renamed_text(one.drop_last(), old, new) == Seq::<char>::empty());
        assert(one.last() == t);
        assert(renamed_text(one, old, new) =~= tok_renamed(t, old, new));
        lemma_renamed_front(s, j + k, old, new);
        if let Tok::Hole(n) = t {
            assert(is_name(new));
        }
    } else {
        assert(toks_from(s, j).len() == 0);
    }
}

/// Where the renamed text and the text have a run of name chars and `}}`.
proof fn lemma_renamed_ntc(s: Seq<char>, j: int, old: Seq<char>, new: Seq<char>)
    requires
        0 <= j <= s.len(),
        is_name(new),
    ensures
        name_then_close(renamed_from(s, j, old, new), 0) == name_then_close(s, j),
        j < s.len() ==> name_then_close(renamed_from(s, j, old, new), 1) == name_then_close(s, j + 1),
    decreases s.len() - j,
{
    lemma_renamed_front(s, j, old, new);
    if j < s.len() {
        lemma_toks_step(s, j);
        lemma_close_from_bounds(s, j + 2);
        let (t, k) = tok_at(s, j);
        let r = renamed_from(s, j, old, new);
        if let Tok::Plain(c) = t {
            let r1 = renamed_from(s, j + 1, old, new);
            lemma_renamed_concat(seq![t], toks_from(s, j + 1), old, new);
            let one = seq![Tok::Plain(c)];
            assert(one.drop_last().len() == 0);
            assert(renamed_text(one.drop_last(), old, new) == Seq::<char>::empty());
            assert(one.last() == t);
            assert(seq![t] == one);
            assert(r =~= seq![c] + r1);
            lemma_renamed_ntc(s, j + 1, old, new);
            lemma_renamed_front(s, j + 1, old, new);
            lemma_ntc_shift(seq![c], r1, 0);
            if j + 2 < s.len() {
                lemma_renamed_front(s, j + 2, old, new);
                assert(r1[1] == s[j + 2]);
            }
            assert(is_close(r, 1) == is_close(s, j + 1));
        } else {
            assert(r[1] == s[j + 1]);
        }
    }
}

/// Renaming keeps the token structure: the renamed text reads as the same
/// tokens with `old` renamed to `new`.
proof fn lemma_renamed_tokens(s: Seq<char>, i: int, old: Seq<char>, new: Seq<char>)
    requires
        0 <= i <= s.len(),
        is_name(new),
    ensures
        toks_from(renamed_from(s, i, old, new), 0) == toks_from(s, i).map_values(|t: Tok| tok_rn(t, old, new)),
    decreases s.len() - i,
{
    if i == s.len() {
        assert(toks_from(s, i).len() == 0);
        assert(renamed_from(s, i, old, new).len() == 0);
        assert(toks_from(s, i).map_values(|t: Tok| tok_rn(t, old, new)) =~= Seq::<Tok>::empty());
    } else {
        lemma_toks_step(s, i);
        lemma_close_from_bounds(s, i + 2);
        let (t, k) = tok_at(s, i);
        let rest = toks_from(s, i + k);
        let a = tok_renamed(t, old, new);
        let b = renamed_from(s, i + k, old, new);
        lemma_renamed_concat(seq![t], rest, old, new);
        let one = seq![t];
        assert(one.drop_last().len() == 0);
        assert(renamed_text(one.drop_last(), old, new) == Seq::<char>::empty());
        assert(one.last() == t);
        assert(renamed_text(one, old, new) =~= a);
        let y = a + b;
        assert(renamed_from(s, i, old, new) == y);
        lemma_renamed_tokens(s, i + k, old, new);
        lemma_renamed_front(s, i + k, old, new);
        lemma_toks_shift(a, b, 0);
        assert(a.len() + 0 == a.len());
        // the first token of the renamed text
        assert(tok_at(y, 0) == (tok_rn(t, old, new), a.len() as int)) by {
            match t {
                Tok::Escape => {
                    assert(y[0] == '\\' && y[1] == '{' && y[2] == '{');
                },
                Tok::Hole(n) => {
                    let m = if n == old { new } else { n };
                    assert(is_name(m)) by {
                        lemma_holes_named(s, i);
                        assert(toks_from(s, i)[0] == t);
                    }
                    assert(a == hole_text(m));
                    assert(y[0] == '{' && y[1] == '{');
                    assert forall|l: int| 2 <= l < 2 + m.len() as int implies !is_close(y, l) by {
                        assert(y[l] == m[l - 2]);
                        assert(is_name_char(m[l - 2]));
                    }
                    let e = 2 + m.len() as int;
                    assert(y[e] == '}' && y[e + 1] == '}');
                    lemma_close_at(y, 2, e);
                    assert(y.subrange(2, e) =~= m);
                },
                Tok::Plain(c) => {
                    assert(a =~= seq![c]);
                    assert(c == s[i]);
                    assert(!is_escape_at(s, i) && !is_hole_at(s, i));
                    assert(y[0] == c);
                    if i + 1 < s.len() {
                        assert(y[1] == b[0] && b[0] == s[i + 1]);
                        assert(y.len() == 1 + b.len());
                        if i + 2 < s.len() {
                            assert(y[2] == b[1] && b[1] == s[i + 2]);
                        }
                        assert(is_escape_at(y, 0) == is_escape_at(s, i));
                        lemma_ntc_close(y, 2);
                        lemma_ntc_close(s, i + 2);
                        lemma_ntc_shift(a, b, 1);
                        lemma_renamed_ntc(s, i + 1, old, new);
                        assert(is_hole_at(y, 0) == is_hole_at(s, i));
                    }
                },
            }
        }
        lemma_toks_step(y, 0);
        let mapped = toks_from(s, i).map_values(|t: Tok| tok_rn(t, old, new));
        let mrest = rest.map_values(|t: Tok| tok_rn(t, old, new));
        assert(mapped =~= seq![tok_rn(t, old, new)] + mrest);
    }
}

proof fn lemma_close_at(y: Seq<char>, k: int, e: int)
    requires
        0 <= k <= e,
        is_close(y, e),
        forall|l: int| k <= l < e ==> !is_close(y, l),
    ensures
        close_from(y, k) == Some(e),
    decreases e - k,
{
    if k < e {
        lemma_close_at(y, k + 1, e);
    }
}

proof fn lemma_rename_back_text(ts: Seq<Tok>, old: Seq<char>, new: Seq<char>)
    requires
        !ts.contains(Tok::Hole(new)),
    ensures
        renamed_text(ts.map_values(|t: Tok| tok_rn(t, old, new)), new, old) == renamed_text(ts, old, old),
    decreases ts.len(),
{
    if ts.len() > 0 {
        let pre = ts.drop_last();
        assert(!pre.contains(Tok::Hole(new))) by {
            if pre.contains(Tok::Hole(new)) {
                let q = choose|q: int| 0 <= q < pre.len() && pre[q] == Tok::Hole(new);
                assert(ts[q] == pre[q]);
            }
        }
        lemma_rename_back_text(pre, old, new);
        let m = ts.map_values(|t: Tok| tok_rn(t, old, new));
        assert(m.drop_last() =~= pre.map_values(|t: Tok| tok_rn(t, old, new)));
        assert(ts.last() != Tok::Hole(new)) by {
            assert(ts[ts.len() - 1] == ts.last());
        }
        assert(m.last() == tok_rn(ts.last(), old, new));
    }
}

proof fn lemma_holes_renamed(ts: Seq<Tok>, old: Seq<char>, new: Seq<char>)
    requires
        !ts.contains(Tok::Hole(new)),
    ensures
        hole_names(ts.map_values(|t: Tok| tok_rn(t, old, new))) == hole_names(ts).map_values(
            |n: Seq<char>| if n == old { new } else { n },
        ),
    decreases ts.len(),
{
    let f = |n: Seq<char>| if n == old { new } else { n };
    let m = ts.map_values(|t: Tok| tok_rn(t, old, new));
    if ts.len() == 0 {
        assert(m.len() == 0);
        assert(hole_names(m) =~= hole_names(ts).map_values(f));
    } else {
        let pre = ts.drop_last();
        assert(!pre.contains(Tok::Hole(new))) by {
            if pre.contains(Tok::Hole(new)) {
                let q = choose|q: int| 0 <= q < pre.len() && pre[q] == Tok::Hole(new);
                assert(ts[q] == pre[q]);
            }
        }
        lemma_holes_renamed(pre, old, new);
        assert(m.drop_last() =~= pre.map_values(|t: Tok| tok_rn(t, old, new)));
        let hp = hole_names(pre);
        let hpm = hp.map_values(f);
        assert(m.last() == tok_rn(ts.last(), old, new));
        if let Tok::Hole(n) = ts.last() {
            assert(n != new) by {
                assert(ts[ts.len() - 1] == ts.last());
            }
            assert(hpm.contains(f(n)) == hp.contains(n)) by {
                if hp.contains(n) {
                    let q = choose|q: int| 0 <= q < hp.len() && hp[q] == n;
                    assert(hpm[q] == f(n));
                }
                if hpm.contains(f(n)) {
                    let q = choose|q: int| 0 <= q < hpm.len() && hpm[q] == f(n);
                    let x = hp[q];
                    assert(hpm[q] == f(x));
                    if x != n {
                        if x == old {
                            assert(f(n) == new);
                            assert(false);
                        } else {
                            assert(x == f(n));
                            assert(n == old);
                            assert(x == new);
                            assert(hp.contains(x));
                            lemma_hole_names_from(pre, x);
                            assert(false);
                        }
                    }
                }
            }
            if !hp.contains(n) {
                assert(hpm.push(f(n)) =~= hp.push(n).map_values(f));
            }
        }
    }
}

/// Renaming a placeholder and renaming it back gives the text back, when
/// the new name is not already a placeholder of the text; the renamed text
/// lists the same placeholders, with the old name replaced by the new one.
pub proof fn lemma_rename_round_trip(s: Seq<char>, old: Seq<char>, new: Seq<char>)
    requires
        is_name(old),
        is_name(new),
        !hole_names(tokens(s)).contains(new),
    ensures
        renamed_text(tokens(renamed_text(tokens(s), old, new)), new, old) == s,
        hole_names(tokens(renamed_text(tokens(s), old, new))) == hole_names(tokens(s)).map_values(
            |n: Seq<char>| if n == old { new } else { n },
        ),
{
    lemma_placeholders_first_appearance(tokens(s));
    lemma_renamed_tokens(s, 0, old, new);
    lemma_holes_renamed(tokens(s), old, new);
    lemma_rename_back_text(tokens(s), old, new);
    lemma_toks_spell(s, 0, old, old);
    assert(s.subrange(0, s.len() as int) =~= s);
}
} // verus!
