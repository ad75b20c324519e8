//! Minimal YAML-subset reader/writer for the formats this app owns:
//! recipe files and prompt frontmatter. Both are written by this module in a
//! canonical form; hand-edited files must follow the same subset:
//!
//! - `key: value` at top level (value bare or double-quoted with JSON-style escapes)
//! - `key:` followed by an indented block of `  subkey: value` (one level, used for `values:`)
//! - inline string arrays: `key: ["a", "b"]` (JSON syntax)
//! - `#` comments and blank lines are ignored (only at line starts)

use vstd::prelude::*;
use crate::json::{Json, JsonV, jv, jv_seq, lemma_jv_seq, parse_error, parse_spec, quote};
use crate::text::{chars_of, copy_string, extend_chars, extend_range, extend_str, str_eq, string_of, string_of_range, views};
use crate::util::{dec, push_dec};

verus! {

// ---------- text helpers ----------

/// Unicode white space (std's `char::is_whitespace`).
pub open spec fn is_ws(c: char) -> bool {
    let v = c as u32;
    (0x9 <= v <= 0xd) || v == 0x20 || v == 0x85 || v == 0xa0 || v == 0x1680 || (0x2000 <= v
        <= 0x200a) || v == 0x2028 || v == 0x2029 || v == 0x202f || v == 0x205f || v == 0x3000
}

pub fn is_ws_exec(c: char) -> (r: bool)
    ensures
        r == is_ws(c),
{
    let v = c as u32;
    (0x9 <= v && v <= 0xd) || v == 0x20 || v == 0x85 || v == 0xa0 || v == 0x1680 || (0x2000 <= v
        && v <= 0x200a) || v == 0x2028 || v == 0x2029 || v == 0x202f || v == 0x205f || v == 0x3000
}

/// `s` without trailing white space.
pub open spec fn trim_end(s: Seq<char>) -> Seq<char>
    decreases s.len(),
{
    if s.len() > 0 && is_ws(s.last()) {
        trim_end(s.drop_last())
    } else {
        s
    }
}

/// `s` without leading white space.
pub open spec fn trim_start(s: Seq<char>) -> Seq<char>
    decreases s.len(),
{
    if s.len() > 0 && is_ws(s[0]) {
        trim_start(s.drop_first())
    } else {
        s
    }
}

/// `s` without white space at either end.
pub open spec fn trim(s: Seq<char>) -> Seq<char> {
    trim_end(trim_start(s))
}

proof fn lemma_trim_start_skip(s: Seq<char>, i: int)
    requires
        0 <= i <= s.len(),
        forall|j: int| 0 <= j < i ==> is_ws(s[j]),
    ensures
        trim_start(s) == trim_start(s.skip(i)),
    decreases i,
{
    if i > 0 {
        lemma_trim_start_skip(s.drop_first(), i - 1);
        assert(s.drop_first().skip(i - 1) =~= s.skip(i));
    } else {
        assert(s.skip(0) =~= s);
    }
}

proof fn lemma_trim_end_take(s: Seq<char>, k: int)
    requires
        0 <= k <= s.len(),
        forall|j: int| k <= j < s.len() ==> is_ws(s[j]),
    ensures
        trim_end(s) == trim_end(s.take(k)),
    decreases s.len() - k,
{
    if k < s.len() {
        assert(s.drop_last().take(k) =~= s.take(k));
        lemma_trim_end_take(s.drop_last(), k);
    } else {
        assert(s.take(k) =~= s);
    }
}

/// The bounds `[a, b)` of `s[from..to]` without white space at the ends.
pub(crate) fn trim_bounds(s: &[char], from: usize, to: usize) -> (r: (usize, usize))
    requires
        from <= to <= s@.len(),
    ensures
        from <= r.0 <= r.1 <= to,
        s@.subrange(r.0 as int, r.1 as int) == trim(s@.subrange(from as int, to as int)),
        trim_start(s@.subrange(from as int, to as int)) == s@.subrange(r.0 as int, to as int),
{
    let ghost t = s@.subrange(from as int, to as int);
    let mut a = from;
    while a < to && is_ws_exec(s[a])
        invariant
            from <= a <= to,
            to <= s@.len(),
            forall|j: int| from <= j < a ==> is_ws(s@[j]),
        decreases to - a,
    {
        a = a + 1;
    }
    proof {
        lemma_trim_start_skip(t, a - from);
        assert(t.skip(a - from) =~= s@.subrange(a as int, to as int));
        if a < to {
            assert(s@.subrange(a as int, to as int)[0] == s@[a as int]);
        }
    }
    let mut b = to;
    while b > a && is_ws_exec(s[b - 1])
        invariant
            from <= a <= b <= to,
            to <= s@.len(),
            forall|j: int| b <= j < to ==> is_ws(s@[j]),
        decreases b,
    {
        b = b - 1;
    }
    proof {
        let u = s@.subrange(a as int, to as int);
        lemma_trim_end_take(u, b - a);
        assert(u.take(b - a) =~= s@.subrange(a as int, b as int));
        if b > a {
            assert(s@.subrange(a as int, b as int).last() == s@[b - 1]);
        }
    }
    (a, b)
}

/// `s` without white space at either end (std's `str::trim`).
pub fn trim_str(s: &str) -> (r: String)
    ensures
        r@ == trim(s@),
{
    let cs = chars_of(s);
    let n = cs.len();
    let (a, b) = trim_bounds(cs.as_slice(), 0, n);
    assert(cs@.subrange(0, n as int) =~= cs@);
    crate::text::string_of_range(cs.as_slice(), a, b)
}

/// The end of `s[from..to]` without trailing white space.
pub(crate) fn trim_end_bound(s: &[char], from: usize, to: usize) -> (r: usize)
    requires
        from <= to <= s@.len(),
    ensures
        from <= r <= to,
        s@.subrange(from as int, r as int) == trim_end(s@.subrange(from as int, to as int)),
{
    let ghost t = s@.subrange(from as int, to as int);
    let mut b = to;
    while b > from && is_ws_exec(s[b - 1])
        invariant
            from <= b <= to,
            to <= s@.len(),
            forall|j: int| b <= j < to ==> is_ws(s@[j]),
        decreases b,
    {
        b = b - 1;
    }
    proof {
        lemma_trim_end_take(t, b - from);
        assert(t.take(b - from) =~= s@.subrange(from as int, b as int));
        if b > from {
            assert(s@.subrange(from as int, b as int).last() == s@[b - 1]);
        }
    }
    b
}

// ---------- lines ----------

/// First `\n` at or after `i`, or the end.
pub open spec fn next_nl(s: Seq<char>, i: int) -> int
    decreases s.len() - i,
{
    if 0 <= i < s.len() && s[i] != '\n' {
        next_nl(s, i + 1)
    } else {
        i
    }
}

/// The line from `i` to `j`; a line ended by `\n` loses one trailing `\r`.
pub open spec fn line_text(s: Seq<char>, i: int, j: int) -> Seq<char> {
    if j < s.len() && j > i && s[j - 1] == '\r' {
        s.subrange(i, j - 1)
    } else {
        s.subrange(i, j)
    }
}

pub proof fn lemma_next_nl(s: Seq<char>, i: int)
    requires
        0 <= i <= s.len(),
    ensures
        i <= next_nl(s, i) <= s.len(),
        next_nl(s, i) < s.len() ==> s[next_nl(s, i)] == '\n',
        forall|j: int| i <= j < next_nl(s, i) ==> s[j] != '\n',
    decreases s.len() - i,
{
    if i < s.len() && s[i] != '\n' {
        lemma_next_nl(s, i + 1);
    }
}

/// The lines of `s` from `i` on (std's `str::lines`: split at `\n` or `\r\n`,
/// no empty last line after a final line break).
pub open spec fn lines_from(s: Seq<char>, i: int) -> Seq<Seq<char>>
    decreases s.len() - i,
{
    if i < 0 || i >= s.len() {
        seq![]
    } else {
        proof {
            lemma_next_nl(s, i);
            assert(next_nl(s, i) >= i);
        }
        let j = next_nl(s, i);
        seq![line_text(s, i, j)] + if j < s.len() {
            lines_from(s, j + 1)
        } else {
            seq![]
        }
    }
}

pub open spec fn lines(s: Seq<char>) -> Seq<Seq<char>> {
    lines_from(s, 0)
}

/// The lines of a text.
pub fn split_lines(s: &[char]) -> (r: Vec<Vec<char>>)
    ensures
        r@.map_values(|l: Vec<char>| l@) == lines(s@),
{
    let n = s.len();
    let mut out: Vec<Vec<char>> = Vec::new();
    let mut i: usize = 0;
    let ghost mut pre: Seq<Seq<char>> = seq![];
    assert(pre + lines_from(s@, 0) =~= lines(s@));
    while i < n
        invariant
            n == s@.len(),
            i <= n,
            pre + lines_from(s@, i as int) == lines(s@),
            out@.map_values(|l: Vec<char>| l@) == pre,
        decreases n - i,
    {
        let mut j = i;
        while j < n && s[j] != '\n'
            invariant
                i <= j <= n,
                n == s@.len(),
                next_nl(s@, i as int) == next_nl(s@, j as int),
            decreases n - j,
        {
            j = j + 1;
        }
        let end = if j < n && j > i && s[j - 1] == '\r' { j - 1 } else { j };
        let mut line: Vec<char> = Vec::new();
        extend_range(&mut line, s, i, end);
        proof {
            lemma_next_nl(s@, i as int);
            let l = line_text(s@, i as int, j as int);
            assert(line@ == l);
            let nxt = if j < n { j + 1 } else { j as int };
            assert(lines_from(s@, i as int) == seq![l] + lines_from(s@, nxt));
            assert(pre.push(l) + lines_from(s@, nxt) =~= pre + lines_from(s@, i as int));
            pre = pre.push(l);
        }
        out.push(line);
        assert(out@.map_values(|l: Vec<char>| l@) =~= pre);
        i = if j < n { j + 1 } else { j };
    }
    proof {
        assert(lines_from(s@, i as int) == Seq::<Seq<char>>::empty());
        assert(pre =~= lines(s@));
    }
    out
}


// ---------- document ----------

/// Top-level scalar, string-array and one-level map entries, each kind in
/// the order read or set.
#[derive(Debug, Clone, PartialEq)]
pub struct YamlDoc {
    /// top-level scalar entries in document order
    pub scalars: Vec<(String, String)>,
    /// top-level string-array entries
    pub arrays: Vec<(String, Vec<String>)>,
    /// top-level nested map entries (one level deep)
    pub maps: Vec<(String, Vec<(String, String)>)>,
}

/// The mathematical value of a document.
pub struct YamlDocV {
    pub scalars: Seq<(Seq<char>, Seq<char>)>,
    pub arrays: Seq<(Seq<char>, Seq<Seq<char>>)>,
    pub maps: Seq<(Seq<char>, Seq<(Seq<char>, Seq<char>)>)>,
}

pub open spec fn pairs_v(v: Seq<(String, String)>) -> Seq<(Seq<char>, Seq<char>)> {
    v.map_values(|p: (String, String)| (p.0@, p.1@))
}

pub open spec fn arrays_v(v: Seq<(String, Vec<String>)>) -> Seq<(Seq<char>, Seq<Seq<char>>)> {
    v.map_values(|p: (String, Vec<String>)| (p.0@, views(p.1@)))
}

pub open spec fn maps_v(v: Seq<(String, Vec<(String, String)>)>) -> Seq<
    (Seq<char>, Seq<(Seq<char>, Seq<char>)>),
> {
    v.map_values(|p: (String, Vec<(String, String)>)| (p.0@, pairs_v(p.1@)))
}

pub open spec fn empty_doc() -> YamlDocV {
    YamlDocV { scalars: seq![], arrays: seq![], maps: seq![] }
}

impl View for YamlDoc {
    type V = YamlDocV;

    open spec fn view(&self) -> YamlDocV {
        YamlDocV {
            scalars: pairs_v(self.scalars@),
            arrays: arrays_v(self.arrays@),
            maps: maps_v(self.maps@),
        }
    }
}

impl Default for YamlDoc {
    fn default() -> (r: YamlDoc)
        ensures
            r@ == empty_doc(),
    {
        let r = YamlDoc { scalars: Vec::new(), arrays: Vec::new(), maps: Vec::new() };
        assert(r@.scalars =~= seq![]);
        assert(r@.arrays =~= seq![]);
        assert(r@.maps =~= seq![]);
        r
    }
}

/// Index of the first entry with key `k`.
pub open spec fn key_pos<V>(s: Seq<(Seq<char>, V)>, k: Seq<char>) -> Option<int>
    decreases s.len(),
{
    if s.len() == 0 {
        None
    } else if s[0].0 == k {
        Some(0)
    } else {
        match key_pos(s.drop_first(), k) {
            Some(i) => Some(i + 1),
            None => None,
        }
    }
}

/// Value of the first entry with key `k`.
pub open spec fn lookup<V>(s: Seq<(Seq<char>, V)>, k: Seq<char>) -> Option<V> {
    match key_pos(s, k) {
        Some(i) => Some(s[i].1),
        None => None,
    }
}

/// Sets the value of the first entry with key `k`, or appends `(k, v)`.
pub open spec fn assign<V>(s: Seq<(Seq<char>, V)>, k: Seq<char>, v: V) -> Seq<(Seq<char>, V)> {
    match key_pos(s, k) {
        Some(i) => s.update(i, (k, v)),
        None => s.push((k, v)),
    }
}

pub proof fn lemma_key_pos<V>(s: Seq<(Seq<char>, V)>, k: Seq<char>)
    ensures
        key_pos(s, k) matches Some(i) ==> 0 <= i < s.len() && s[i].0 == k && forall|j: int|
            0 <= j < i ==> s[j].0 != k,
        key_pos(s, k) is None ==> forall|j: int| 0 <= j < s.len() ==> s[j].0 != k,
    decreases s.len(),
{
    if s.len() > 0 {
        lemma_key_pos(s.drop_first(), k);
        if s[0].0 != k {
            assert forall|j: int| 1 <= j < s.len() implies s[j] == s.drop_first()[j - 1] by {}
        }
    }
}

pub proof fn lemma_key_pos_found<V>(s: Seq<(Seq<char>, V)>, k: Seq<char>, i: int)
    requires
        0 <= i < s.len(),
        s[i].0 == k,
        forall|j: int| 0 <= j < i ==> s[j].0 != k,
    ensures
        key_pos(s, k) == Some(i),
{
    lemma_key_pos(s, k);
    if let Some(p) = key_pos(s, k) {
        assert(p == i);
    }
}

/// Index of the first entry whose key is `key`, as chars.
fn find_key<V>(v: &Vec<(String, V)>, key: &str) -> (r: Option<usize>)
    ensures
        r matches Some(i) ==> i < v@.len() && v@[i as int].0@ == key@ && forall|j: int|
            0 <= j < i ==> v@[j].0@ != key@,
        r is None ==> forall|j: int| 0 <= j < v@.len() ==> v@[j].0@ != key@,
{
    let n = v.len();
    let mut i: usize = 0;
    while i < n
        invariant
            n == v@.len(),
            i <= n,
            forall|j: int| 0 <= j < i ==> v@[j].0@ != key@,
        decreases n - i,
    {
        if str_eq(v[i].0.as_str(), key) {
            return Some(i);
        }
        i = i + 1;
    }
    None
}

impl YamlDoc {
    pub fn get(&self, key: &str) -> (r: Option<&str>)
        ensures
            r matches Some(t) ==> lookup(self@.scalars, key@) == Some(t@),
            r is None ==> lookup(self@.scalars, key@) is None,
    {
        match find_key(&self.scalars, key) {
            Some(i) => {
                proof {
                    lemma_key_pos_found(self@.scalars, key@, i as int);
                }
                Some(self.scalars[i].1.as_str())
            },
            None => {
                proof {
                    lemma_key_pos(self@.scalars, key@);
                    if let Some(p) = key_pos(self@.scalars, key@) {
                        assert(self@.scalars[p].0 == self.scalars@[p].0@);
                    }
                }
                None
            },
        }
    }

    pub fn get_arr(&self, key: &str) -> (r: Option<&Vec<String>>)
        ensures
            r matches Some(a) ==> lookup(self@.arrays, key@) == Some(views(a@)),
            r is None ==> lookup(self@.arrays, key@) is None,
    {
        match find_key(&self.arrays, key) {
            Some(i) => {
                proof {
                    lemma_key_pos_found(self@.arrays, key@, i as int);
                }
                Some(&self.arrays[i].1)
            },
            None => {
                proof {
                    lemma_key_pos(self@.arrays, key@);
                    if let Some(p) = key_pos(self@.arrays, key@) {
                        assert(self@.arrays[p].0 == self.arrays@[p].0@);
                    }
                }
                None
            },
        }
    }

    pub fn get_map(&self, key: &str) -> (r: Option<&Vec<(String, String)>>)
        ensures
            r matches Some(m) ==> lookup(self@.maps, key@) == Some(pairs_v(m@)),
            r is None ==> lookup(self@.maps, key@) is None,
    {
        match find_key(&self.maps, key) {
            Some(i) => {
                proof {
                    lemma_key_pos_found(self@.maps, key@, i as int);
                }
                Some(&self.maps[i].1)
            },
            None => {
                proof {
                    lemma_key_pos(self@.maps, key@);
                    if let Some(p) = key_pos(self@.maps, key@) {
                        assert(self@.maps[p].0 == self.maps@[p].0@);
                    }
                }
                None
            },
        }
    }

    /// Sets scalar `key`, keeping its place if present.
    pub fn set(&mut self, key: &str, value: &str)
        ensures
            final(self)@ == (YamlDocV { scalars: assign(old(self)@.scalars, key@, value@), ..old(self)@ }),
    {
        match find_key(&self.scalars, key) {
            Some(i) => {
                proof {
                    lemma_key_pos_found(old(self)@.scalars, key@, i as int);
                }
                self.scalars.set(i, (copy_string(key), copy_string(value)));
            },
            None => {
                proof {
                    lemma_key_pos(old(self)@.scalars, key@);
                    if let Some(p) = key_pos(old(self)@.scalars, key@) {
                        assert(old(self)@.scalars[p].0 == old(self).scalars@[p].0@);
                    }
                }
                self.scalars.push((copy_string(key), copy_string(value)));
            },
        }
        assert(self@.scalars =~= assign(old(self)@.scalars, key@, value@));
    }

    /// Sets array `key`, keeping its place if present.
    pub fn set_arr(&mut self, key: &str, value: Vec<String>)
        ensures
            final(self)@ == (YamlDocV { arrays: assign(old(self)@.arrays, key@, views(value@)), ..old(self)@ }),
    {
        let ghost vv = views(value@);
        match find_key(&self.arrays, key) {
            Some(i) => {
                proof {
                    lemma_key_pos_found(old(self)@.arrays, key@, i as int);
                }
                self.arrays.set(i, (copy_string(key), value));
            },
            None => {
                proof {
                    lemma_key_pos(old(self)@.arrays, key@);
                    if let Some(p) = key_pos(old(self)@.arrays, key@) {
                        assert(old(self)@.arrays[p].0 == old(self).arrays@[p].0@);
                    }
                }
                self.arrays.push((copy_string(key), value));
            },
        }
        assert(self@.arrays =~= assign(old(self)@.arrays, key@, vv));
    }

    /// Sets map `key`, keeping its place if present.
    pub fn set_map(&mut self, key: &str, value: Vec<(String, String)>)
        ensures
            final(self)@ == (YamlDocV { maps: assign(old(self)@.maps, key@, pairs_v(value@)), ..old(self)@ }),
    {
        let ghost vv = pairs_v(value@);
        match find_key(&self.maps, key) {
            Some(i) => {
                proof {
                    lemma_key_pos_found(old(self)@.maps, key@, i as int);
                }
                self.maps.set(i, (copy_string(key), value));
            },
            None => {
                proof {
                    lemma_key_pos(old(self)@.maps, key@);
                    if let Some(p) = key_pos(old(self)@.maps, key@) {
                        assert(old(self)@.maps[p].0 == old(self).maps@[p].0@);
                    }
                }
                self.maps.push((copy_string(key), value));
            },
        }
        assert(self@.maps =~= assign(old(self)@.maps, key@, vv));
    }
}


// ---------- reading ----------

pub open spec fn is_key_char(c: char) -> bool {
    ('a' <= c && c <= 'z') || ('A' <= c && c <= 'Z') || ('0' <= c && c <= '9') || c == '_' || c
        == '-'
}

/// A valid key: `[A-Za-z0-9_-]+`.
pub open spec fn is_key(k: Seq<char>) -> bool {
    k.len() > 0 && forall|i: int| 0 <= i < k.len() ==> #[trigger] is_key_char(k[i])
}

/// Index of the first `:`.
pub open spec fn first_colon(l: Seq<char>) -> Option<int>
    decreases l.len(),
{
    if l.len() == 0 {
        None
    } else if l[0] == ':' {
        Some(0)
    } else {
        match first_colon(l.drop_first()) {
            Some(i) => Some(i + 1),
            None => None,
        }
    }
}

/// `key: rest` split at the first `:`; the key is trimmed and must be valid.
pub open spec fn split_key_spec(l: Seq<char>) -> Option<(Seq<char>, Seq<char>)> {
    match first_colon(l) {
        None => None,
        Some(i) => {
            let k = trim(l.take(i));
            if is_key(k) {
                Some((k, l.skip(i + 1)))
            } else {
                None
            }
        },
    }
}

/// A scalar: a JSON string literal when it starts with `"`, else the text as is.
pub open spec fn scalar_spec(t: Seq<char>) -> Option<Seq<char>> {
    if t.len() > 0 && t[0] == '"' {
        match parse_spec(t) {
            Some(JsonV::Str(x)) => Some(x),
            _ => None,
        }
    } else {
        Some(t)
    }
}

/// The texts of a sequence of JSON values that are all strings.
pub open spec fn str_items(a: Seq<JsonV>) -> Option<Seq<Seq<char>>>
    decreases a.len(),
{
    if a.len() == 0 {
        Some(seq![])
    } else {
        match (str_items(a.drop_last()), a.last()) {
            (Some(xs), JsonV::Str(x)) => Some(xs.push(x)),
            _ => None,
        }
    }
}

/// An inline array: a JSON array of strings.
pub open spec fn array_spec(t: Seq<char>) -> Option<Seq<Seq<char>>> {
    match parse_spec(t) {
        Some(JsonV::Arr(a)) => str_items(a),
        _ => None,
    }
}

/// Only white space.
pub open spec fn is_blank(l: Seq<char>) -> bool {
    trim(l).len() == 0
}

/// A `#` comment line.
pub open spec fn is_comment(l: Seq<char>) -> bool {
    trim_start(l).len() > 0 && trim_start(l)[0] == '#'
}

/// Starts with two spaces.
pub open spec fn is_indented(l: Seq<char>) -> bool {
    l.len() >= 2 && l[0] == ' ' && l[1] == ' '
}

/// The entries of an indented block from line `k`: the entries and the
/// first line after the block.
pub open spec fn p_block(ls: Seq<Seq<char>>, k: int, es: Seq<(Seq<char>, Seq<char>)>) -> Option<
    (Seq<(Seq<char>, Seq<char>)>, int),
>
    decreases ls.len() - k,
{
    if k < 0 || k >= ls.len() {
        Some((es, k))
    } else {
        let nx = ls[k];
        if is_indented(nx) && !is_blank(nx) {
            let t = trim_start(trim_end(nx));
            if t.len() > 0 && t[0] == '#' {
                p_block(ls, k + 1, es)
            } else {
                match split_key_spec(t) {
                    None => None,
                    Some((k2, r2)) => match scalar_spec(trim(r2)) {
                        None => None,
                        Some(v) => p_block(ls, k + 1, es.push((k2, v))),
                    },
                }
            }
        } else if is_blank(nx) {
            p_block(ls, k + 1, es)
        } else {
            Some((es, k))
        }
    }
}

pub proof fn lemma_p_block_end(ls: Seq<Seq<char>>, k: int, es: Seq<(Seq<char>, Seq<char>)>)
    requires
        0 <= k,
    ensures
        p_block(ls, k, es) matches Some((_, e)) ==> k <= e && (k <= ls.len() ==> e <= ls.len()),
    decreases ls.len() - k,
{
    if k < ls.len() {
        let nx = ls[k];
        if is_indented(nx) && !is_blank(nx) {
            let t = trim_start(trim_end(nx));
            if t.len() > 0 && t[0] == '#' {
                lemma_p_block_end(ls, k + 1, es);
            } else {
                match split_key_spec(t) {
                    None => {},
                    Some((k2, r2)) => match scalar_spec(trim(r2)) {
                        None => {},
                        Some(v) => lemma_p_block_end(ls, k + 1, es.push((k2, v))),
                    },
                }
            }
        } else if is_blank(nx) {
            lemma_p_block_end(ls, k + 1, es);
        }
    }
}

/// Reads the lines from `idx` on into the document `d`.
pub open spec fn p_lines(ls: Seq<Seq<char>>, idx: int, d: YamlDocV) -> Option<YamlDocV>
    decreases ls.len() - idx,
{
    if idx < 0 || idx >= ls.len() {
        Some(d)
    } else {
        let line = trim_end(ls[idx]);
        if is_blank(line) || is_comment(line) {
            p_lines(ls, idx + 1, d)
        } else if line.len() > 0 && line[0] == ' ' {
            None
        } else {
            match split_key_spec(line) {
                None => None,
                Some((key, rest)) => {
                    let r = trim(rest);
                    if r.len() == 0 {
                        proof {
                            lemma_p_block_end(ls, idx + 1, seq![]);
                        }
                        match p_block(ls, idx + 1, seq![]) {
                            None => None,
                            Some((es, nxt)) => p_lines(
                                ls,
                                nxt,
                                YamlDocV { maps: d.maps.push((key, es)), ..d },
                            ),
                        }
                    } else if r[0] == '[' {
                        match array_spec(r) {
                            None => None,
                            Some(items) => p_lines(
                                ls,
                                idx + 1,
                                YamlDocV { arrays: d.arrays.push((key, items)), ..d },
                            ),
                        }
                    } else {
                        match scalar_spec(r) {
                            None => None,
                            Some(v) => p_lines(
                                ls,
                                idx + 1,
                                YamlDocV { scalars: d.scalars.push((key, v)), ..d },
                            ),
                        }
                    }
                },
            }
        }
    }
}

/// The document a text holds, if it follows the subset.
pub open spec fn parse_doc(s: Seq<char>) -> Option<YamlDocV> {
    p_lines(lines(s), 0, empty_doc())
}

// ---------- what a failed read reports ----------

/// `line N: text` for the zero-based line `ln`.
pub open spec fn line_msg(ln: int, text: Seq<char>) -> Seq<char> {
    "line "@ + dec((ln + 1) as nat) + ": "@ + text
}

/// Why a `key: rest` line does not split.
pub open spec fn split_key_err(l: Seq<char>) -> Seq<char> {
    match first_colon(l) {
        None => "missing ':'"@,
        Some(i) => "invalid key '"@ + trim(l.take(i)) + "'"@,
    }
}

/// Why a quoted scalar does not read.
pub open spec fn scalar_err(t: Seq<char>) -> Seq<char> {
    match parse_spec(t) {
        None => "bad string: "@ + parse_error(t),
        Some(_) => "expected string"@,
    }
}

/// Why an inline array does not read.
pub open spec fn array_err(t: Seq<char>) -> Seq<char> {
    match parse_spec(t) {
        None => "bad array: "@ + parse_error(t),
        Some(JsonV::Arr(_)) => "array items must be strings"@,
        Some(_) => "expected array"@,
    }
}

/// What an indented block from line `k` that does not read reports.
pub open spec fn e_block(ls: Seq<Seq<char>>, k: int) -> Seq<char>
    decreases ls.len() - k,
{
    if k < 0 || k >= ls.len() {
        seq![]
    } else {
        let nx = ls[k];
        if is_indented(nx) && !is_blank(nx) {
            let t = trim_start(trim_end(nx));
            if t.len() > 0 && t[0] == '#' {
                e_block(ls, k + 1)
            } else {
                match split_key_spec(t) {
                    None => line_msg(k, split_key_err(t)),
                    Some((k2, r2)) => match scalar_spec(trim(r2)) {
                        None => line_msg(k, scalar_err(trim(r2))),
                        Some(v) => e_block(ls, k + 1),
                    },
                }
            }
        } else if is_blank(nx) {
            e_block(ls, k + 1)
        } else {
            seq![]
        }
    }
}

/// What the lines from `idx` on report when they do not read.
pub open spec fn e_lines(ls: Seq<Seq<char>>, idx: int) -> Seq<char>
    decreases ls.len() - idx,
{
    if idx < 0 || idx >= ls.len() {
        seq![]
    } else {
        let line = trim_end(ls[idx]);
        if is_blank(line) || is_comment(line) {
            e_lines(ls, idx + 1)
        } else if line.len() > 0 && line[0] == ' ' {
            line_msg(idx, "unexpected indentation"@)
        } else {
            match split_key_spec(line) {
                None => line_msg(idx, split_key_err(line)),
                Some((key, rest)) => {
                    let r = trim(rest);
                    if r.len() == 0 {
                        proof {
                            lemma_p_block_end(ls, idx + 1, seq![]);
                        }
                        match p_block(ls, idx + 1, seq![]) {
                            None => e_block(ls, idx + 1),
                            Some((es, nxt)) => e_lines(ls, nxt),
                        }
                    } else if r[0] == '[' {
                        match array_spec(r) {
                            None => line_msg(idx, array_err(r)),
                            Some(items) => e_lines(ls, idx + 1),
                        }
                    } else {
                        match scalar_spec(r) {
                            None => line_msg(idx, scalar_err(r)),
                            Some(v) => e_lines(ls, idx + 1),
                        }
                    }
                },
            }
        }
    }
}

/// What a text that does not follow the subset reports.
pub open spec fn yaml_error(s: Seq<char>) -> Seq<char> {
    e_lines(lines(s), 0)
}


pub proof fn lemma_first_colon(l: Seq<char>)
    ensures
        first_colon(l) matches Some(i) ==> 0 <= i < l.len() && l[i] == ':' && forall|j: int|
            0 <= j < i ==> l[j] != ':',
        first_colon(l) is None ==> forall|j: int| 0 <= j < l.len() ==> l[j] != ':',
    decreases l.len(),
{
    if l.len() > 0 {
        lemma_first_colon(l.drop_first());
        if l[0] != ':' {
            assert forall|j: int| 1 <= j < l.len() implies l[j] == l.drop_first()[j - 1] by {}
        }
    }
}

pub proof fn lemma_first_colon_at(l: Seq<char>, i: int)
    requires
        0 <= i < l.len(),
        l[i] == ':',
        forall|j: int| 0 <= j < i ==> l[j] != ':',
    ensures
        first_colon(l) == Some(i),
{
    lemma_first_colon(l);
    if let Some(p) = first_colon(l) {
        assert(p == i);
    }
}

/// `line N: text` for zero-based line `ln`.
fn line_err(ln: usize, text: &str) -> (r: String)
    ensures
        r@ == line_msg(ln as int, text@),
{
    let mut out: Vec<char> = Vec::new();
    extend_str(&mut out, "line ");
    push_dec(&mut out, (ln as u128) + 1);
    extend_str(&mut out, ": ");
    extend_str(&mut out, text);
    assert(out@ =~= line_msg(ln as int, text@));
    string_of(out.as_slice())
}

/// `line N: text1<chars>text2`.
fn line_err_with(ln: usize, text1: &str, mid: &[char], text2: &str) -> (r: String)
    ensures
        r@ == line_msg(ln as int, text1@ + mid@ + text2@),
{
    let mut out: Vec<char> = Vec::new();
    extend_str(&mut out, "line ");
    push_dec(&mut out, (ln as u128) + 1);
    extend_str(&mut out, ": ");
    extend_str(&mut out, text1);
    extend_chars(&mut out, mid);
    extend_str(&mut out, text2);
    assert(out@ =~= line_msg(ln as int, text1@ + mid@ + text2@));
    string_of(out.as_slice())
}

fn is_key_char_exec(c: char) -> (r: bool)
    ensures
        r == is_key_char(c),
{
    ('a' <= c && c <= 'z') || ('A' <= c && c <= 'Z') || ('0' <= c && c <= '9') || c == '_' || c
        == '-'
}

/// Splits `l[from..to]` at its first `:`: the trimmed key and where the rest starts.
fn split_key(l: &[char], from: usize, to: usize, ln: usize) -> (r: Result<(Vec<char>, usize), String>)
    requires
        from <= to <= l@.len(),
    ensures
        r matches Ok((k, rs)) ==> from < rs <= to && split_key_spec(l@.subrange(from as int, to as int))
            == Some((k@, l@.subrange(rs as int, to as int))),
        r is Err ==> split_key_spec(l@.subrange(from as int, to as int)) is None,
        r matches Err(m) ==> m@ == line_msg(ln as int, split_key_err(l@.subrange(from as int, to as int))),
{
    let ghost t = l@.subrange(from as int, to as int);
    let mut i = from;
    while i < to && l[i] != ':'
        invariant
            from <= i <= to,
            to <= l@.len(),
            forall|j: int| from <= j < i ==> l@[j] != ':',
        decreases to - i,
    {
        i = i + 1;
    }
    if i == to {
        proof {
            lemma_first_colon(t);
            if let Some(p) = first_colon(t) {
                assert(t[p] == l@[from + p]);
            }
        }
        return Err(line_err(ln, "missing ':'"));
    }
    let (a, b) = trim_bounds(l, from, i);
    let mut ok = a < b;
    let mut q = a;
    while q < b
        invariant
            a <= q <= b,
            b <= l@.len(),
            ok ==> a < b,
            ok ==> forall|j: int| a <= j < q ==> is_key_char(l@[j]),
            !ok ==> (a == b || exists|j: int| a <= j < q && !is_key_char(l@[j])),
        decreases b - q,
    {
        if !is_key_char_exec(l[q]) {
            ok = false;
        }
        q = q + 1;
    }
    let mut key: Vec<char> = Vec::new();
    extend_range(&mut key, l, a, b);
    proof {
        lemma_first_colon_at(t, i - from);
        assert(t.take(i - from) =~= l@.subrange(from as int, i as int));
        assert(t.skip(i - from + 1) =~= l@.subrange(i + 1, to as int));
        let k = l@.subrange(a as int, b as int);
        assert(key@ == k);
        assert(trim(t.take(i - from)) == k);
        if ok {
            assert forall|j: int| 0 <= j < k.len() implies #[trigger] is_key_char(k[j]) by {
                assert(k[j] == l@[a + j]);
            }
        } else if a < b {
            let j = choose|j: int| a <= j < q && !is_key_char(l@[j]);
            assert(k[j - a] == l@[j]);
            assert(!is_key_char(k[j - a]));
        }
    }
    if !ok {
        return Err(line_err_with(ln, "invalid key '", key.as_slice(), "'"));
    }
    Ok((key, i + 1))
}

/// Reads the scalar `l[from..to]`.
fn parse_scalar(l: &[char], from: usize, to: usize, ln: usize) -> (r: Result<String, String>)
    requires
        from <= to <= l@.len(),
    ensures
        r matches Ok(v) ==> scalar_spec(l@.subrange(from as int, to as int)) == Some(v@),
        r is Err ==> scalar_spec(l@.subrange(from as int, to as int)) is None,
        r matches Err(m) ==> m@ == line_msg(ln as int, scalar_err(l@.subrange(from as int, to as int))),
{
    let t = string_of_range(l, from, to);
    if from < to && l[from] == '"' {
        match Json::parse(t.as_str()) {
            Ok(v) => match v {
                Json::Str(x) => Ok(x),
                _ => Err(line_err(ln, "expected string")),
            },
            Err(e) => {
                let ec = chars_of(e.as_str());
                proof {
                    reveal_strlit("");
                    assert(ec@ + ""@ =~= ec@);
                }
                Err(line_err_with(ln, "bad string: ", ec.as_slice(), ""))
            },
        }
    } else {
        Ok(t)
    }
}

/// Reads the inline string array `l[from..to]`.
fn parse_array(l: &[char], from: usize, to: usize, ln: usize) -> (r: Result<Vec<String>, String>)
    requires
        from <= to <= l@.len(),
    ensures
        r matches Ok(v) ==> array_spec(l@.subrange(from as int, to as int)) == Some(views(v@)),
        r is Err ==> array_spec(l@.subrange(from as int, to as int)) is None,
        r matches Err(m) ==> m@ == line_msg(ln as int, array_err(l@.subrange(from as int, to as int))),
{
    let t = string_of_range(l, from, to);
    let v = match Json::parse(t.as_str()) {
        Ok(v) => v,
        Err(e) => {
            let ec = chars_of(e.as_str());
            proof {
                reveal_strlit("");
                assert(ec@ + ""@ =~= ec@);
            }
            return Err(line_err_with(ln, "bad array: ", ec.as_slice(), ""));
        },
    };
    assert(array_spec(l@.subrange(from as int, to as int)) == match jv(v) {
        JsonV::Arr(x) => str_items(x),
        _ => None,
    });
    let a = match v.as_arr() {
        Some(a) => a,
        None => {
            return Err(line_err(ln, "expected array"));
        },
    };
    proof {
        lemma_jv_seq(a@);
    }
    let n = a.len();
    let mut out: Vec<String> = Vec::new();
    let mut i: usize = 0;
    assert(jv_seq(a@).take(0) =~= seq![]);
    assert(views(out@) =~= seq![]);
    while i < n
        invariant
            n == a@.len(),
            i <= n,
            jv_seq(a@).len() == n,
            forall|q: int| 0 <= q < n ==> #[trigger] jv_seq(a@)[q] == jv(a@[q]),
            str_items(jv_seq(a@).take(i as int)) == Some(views(out@)),
            array_spec(l@.subrange(from as int, to as int)) == str_items(jv_seq(a@)),
            parse_spec(l@.subrange(from as int, to as int)) == Some(JsonV::Arr(jv_seq(a@))),
        decreases n - i,
    {
        let ghost tk = jv_seq(a@).take(i + 1);
        assert(tk.drop_last() =~= jv_seq(a@).take(i as int));
        match a[i].as_str() {
            Some(x) => {
                let ghost before = views(out@);
                out.push(copy_string(x));
                assert(views(out@) =~= before.push(x@));
            },
            None => {
                proof {
                    let items = jv_seq(a@);
                    assert(items.take(i + 1).last() == jv(a@[i as int]));
                    assert(str_items(items.take(i + 1)) is None);
                    lemma_str_items_prefix(items, i + 1);
                    assert(items.take(n as int) =~= items);
                }
                return Err(line_err(ln, "array items must be strings"));
            },
        }
        i = i + 1;
    }
    assert(jv_seq(a@).take(n as int) =~= jv_seq(a@));
    Ok(out)
}

proof fn lemma_str_items_prefix(a: Seq<JsonV>, k: int)
    requires
        0 <= k <= a.len(),
        str_items(a.take(k)) is None,
    ensures
        str_items(a) is None,
    decreases a.len() - k,
{
    if k < a.len() {
        assert(a.take(k + 1).drop_last() =~= a.take(k));
        lemma_str_items_prefix(a, k + 1);
    } else {
        assert(a.take(k) =~= a);
    }
}


pub open spec fn lines_v(ls: Seq<Vec<char>>) -> Seq<Seq<char>> {
    ls.map_values(|l: Vec<char>| l@)
}

/// Reads the indented block that starts at line `k0`: its entries and the
/// first line after it.
fn parse_block(ls: &Vec<Vec<char>>, k0: usize) -> (r: Result<(Vec<(String, String)>, usize), String>)
    requires
        k0 <= ls@.len(),
    ensures
        r matches Ok((es, e)) ==> p_block(lines_v(ls@), k0 as int, seq![]) == Some((pairs_v(es@), e as int)),
        r is Err ==> p_block(lines_v(ls@), k0 as int, seq![]) is None,
        r matches Err(m) ==> m@ == e_block(lines_v(ls@), k0 as int),
{
    let ghost lv = lines_v(ls@);
    let n = ls.len();
    let mut es: Vec<(String, String)> = Vec::new();
    let mut k = k0;
    assert(pairs_v(es@) =~= seq![]);
    while k < n
        invariant
            n == ls@.len(),
            lv == lines_v(ls@),
            k0 <= k <= n,
            p_block(lv, k0 as int, seq![]) == p_block(lv, k as int, pairs_v(es@)),
            e_block(lv, k0 as int) == e_block(lv, k as int),
        decreases n - k,
    {
        let nx: &Vec<char> = &ls[k];
        assert(lv[k as int] == nx@);
        let len = nx.len();
        assert(nx@.subrange(0, len as int) =~= nx@);
        let (ba, bb) = trim_bounds(nx.as_slice(), 0, len);
        let blank = ba == bb;
        let indented = len >= 2 && nx[0] == ' ' && nx[1] == ' ';
        if indented && !blank {
            let e2 = trim_end_bound(nx.as_slice(), 0, len);
            let (a2, _b2) = trim_bounds(nx.as_slice(), 0, e2);
            proof {
                assert(nx@.subrange(a2 as int, e2 as int) == trim_start(trim_end(nx@)));
            }
            if a2 < e2 && nx[a2] == '#' {
                k = k + 1;
            } else {
                let (key, rs) = match split_key(nx.as_slice(), a2, e2, k) {
                    Ok(x) => x,
                    Err(m) => {
                        return Err(m);
                    },
                };
                let (ra, rb) = trim_bounds(nx.as_slice(), rs, e2);
                let v = match parse_scalar(nx.as_slice(), ra, rb, k) {
                    Ok(v) => v,
                    Err(m) => {
                        return Err(m);
                    },
                };
                let ghost before = pairs_v(es@);
                let ks = string_of(key.as_slice());
                es.push((ks, v));
                assert(pairs_v(es@) =~= before.push((key@, v@)));
                k = k + 1;
            }
        } else if blank {
            k = k + 1;
        } else {
            return Ok((es, k));
        }
    }
    Ok((es, k))
}

/// Reads the entry that starts at line `idx` into `doc`: the next line to read.
#[verifier::rlimit(60)]
#[verifier::spinoff_prover]
fn parse_entry(ls: &Vec<Vec<char>>, idx: usize, doc: &mut YamlDoc) -> (r: Result<usize, String>)
    requires
        idx < ls@.len(),
    ensures
        r matches Ok(nxt) ==> idx < nxt <= ls@.len() && p_lines(lines_v(ls@), idx as int, old(doc)@)
            == p_lines(lines_v(ls@), nxt as int, final(doc)@),
        r matches Ok(nxt) ==> e_lines(lines_v(ls@), idx as int) == e_lines(lines_v(ls@), nxt as int),
        r is Err ==> p_lines(lines_v(ls@), idx as int, old(doc)@) is None,
        r matches Err(m) ==> m@ == e_lines(lines_v(ls@), idx as int),
{
    let ghost lv = lines_v(ls@);
    let _n = ls.len();
    let raw: &Vec<char> = &ls[idx];
    assert(lv[idx as int] == raw@);
    let len = raw.len();
    assert(raw@.subrange(0, len as int) =~= raw@);
    let e = trim_end_bound(raw.as_slice(), 0, len);
    let (a, b) = trim_bounds(raw.as_slice(), 0, e);
    let ghost line = raw@.subrange(0, e as int);
    assert(line == trim_end(lv[idx as int]));
    if a == b || raw[a] == '#' {
        return Ok(idx + 1);
    }
    if raw[0] == ' ' {
        return Err(line_err(idx, "unexpected indentation"));
    }
    let (key, rs) = match split_key(raw.as_slice(), 0, e, idx) {
        Ok(x) => x,
        Err(m) => {
            return Err(m);
        },
    };
    let (ra, rb) = trim_bounds(raw.as_slice(), rs, e);
    let ks = string_of(key.as_slice());
    let ghost before = doc@;
    if ra == rb {
        let (es, nxt) = match parse_block(ls, idx + 1) {
            Ok(x) => x,
            Err(m) => {
                return Err(m);
            },
        };
        proof {
            lemma_p_block_end(lv, idx + 1, seq![]);
        }
        let ghost ev = pairs_v(es@);
        doc.maps.push((ks, es));
        assert(doc@.maps =~= before.maps.push((key@, ev)));
        assert(doc@.scalars =~= before.scalars);
        assert(doc@.arrays =~= before.arrays);
        Ok(nxt)
    } else if raw[ra] == '[' {
        let items = match parse_array(raw.as_slice(), ra, rb, idx) {
            Ok(x) => x,
            Err(m) => {
                return Err(m);
            },
        };
        let ghost iv = views(items@);
        doc.arrays.push((ks, items));
        assert(doc@.arrays =~= before.arrays.push((key@, iv)));
        assert(doc@.scalars =~= before.scalars);
        assert(doc@.maps =~= before.maps);
        Ok(idx + 1)
    } else {
        let v = match parse_scalar(raw.as_slice(), ra, rb, idx) {
            Ok(x) => x,
            Err(m) => {
                return Err(m);
            },
        };
        let ghost vv = v@;
        doc.scalars.push((ks, v));
        assert(doc@.scalars =~= before.scalars.push((key@, vv)));
        assert(doc@.arrays =~= before.arrays);
        assert(doc@.maps =~= before.maps);
        Ok(idx + 1)
    }
}

impl YamlDoc {
    pub fn parse(input: &str) -> (r: Result<YamlDoc, String>)
        ensures
            r matches Ok(d) ==> parse_doc(input@) == Some(d@),
            r is Err <==> parse_doc(input@) is None,
            r matches Err(m) ==> m@ == yaml_error(input@),
    {
        let cs = chars_of(input);
        let ls = split_lines(cs.as_slice());
        let ghost lv = lines_v(ls@);
        assert(lv == lines(input@));
        let mut doc = YamlDoc::default();
        let n = ls.len();
        let mut idx: usize = 0;
        while idx < n
            invariant
                n == ls@.len(),
                lv == lines_v(ls@),
                lv == lines(input@),
                idx <= n,
                parse_doc(input@) == p_lines(lv, idx as int, doc@),
                yaml_error(input@) == e_lines(lv, idx as int),
            decreases n - idx,
        {
            idx = match parse_entry(&ls, idx, &mut doc) {
                Ok(nxt) => nxt,
                Err(m) => {
                    return Err(m);
                },
            };
        }
        Ok(doc)
    }
}


// ---------- writing ----------

/// `s` contains `: `.
pub open spec fn has_colon_space(s: Seq<char>) -> bool {
    exists|i: int| 0 <= i && i + 1 < s.len() && #[trigger] s[i] == ':' && s[i + 1] == ' '
}

/// The bare form of `v` would be ambiguous or lossy.
pub open spec fn needs_quotes(v: Seq<char>) -> bool {
    ||| v.len() == 0
    ||| v[0] == '"'
    ||| v[0] == '['
    ||| v[0] == '#'
    ||| v[0] == ' '
    ||| v.last() == ' '
    ||| v.contains('\n')
    ||| v.contains('\r')
    ||| v.contains('\t')
    ||| has_colon_space(v)
    ||| v.last() == ':'
}

/// How a scalar value is written.
pub open spec fn scalar_out(v: Seq<char>) -> Seq<char> {
    if needs_quotes(v) {
        quote(v)
    } else {
        v
    }
}

pub open spec fn colon_sp() -> Seq<char> {
    seq![':', ' ']
}

pub open spec fn dump_scalars(s: Seq<(Seq<char>, Seq<char>)>) -> Seq<char>
    decreases s.len(),
{
    if s.len() == 0 {
        seq![]
    } else {
        dump_scalars(s.drop_last()) + s.last().0 + colon_sp() + scalar_out(s.last().1) + seq!['\n']
    }
}

/// Quoted items separated by `, `.
pub open spec fn join_quoted(items: Seq<Seq<char>>) -> Seq<char>
    decreases items.len(),
{
    if items.len() == 0 {
        seq![]
    } else {
        join_quoted(items.drop_last()) + (if items.len() > 1 {
            seq![',', ' ']
        } else {
            seq![]
        }) + quote(items.last())
    }
}

pub open spec fn dump_arrays(a: Seq<(Seq<char>, Seq<Seq<char>>)>) -> Seq<char>
    decreases a.len(),
{
    if a.len() == 0 {
        seq![]
    } else {
        dump_arrays(a.drop_last()) + a.last().0 + seq![':', ' ', '['] + join_quoted(a.last().1)
            + seq![']', '\n']
    }
}

pub open spec fn dump_entries(es: Seq<(Seq<char>, Seq<char>)>) -> Seq<char>
    decreases es.len(),
{
    if es.len() == 0 {
        seq![]
    } else {
        dump_entries(es.drop_last()) + seq![' ', ' '] + es.last().0 + colon_sp() + scalar_out(
            es.last().1,
        ) + seq!['\n']
    }
}

pub open spec fn dump_maps(m: Seq<(Seq<char>, Seq<(Seq<char>, Seq<char>)>)>) -> Seq<char>
    decreases m.len(),
{
    if m.len() == 0 {
        seq![]
    } else {
        dump_maps(m.drop_last()) + m.last().0 + seq![':', '\n'] + dump_entries(m.last().1)
    }
}

/// The text of a document: scalars, then arrays, then maps.
pub open spec fn dump_doc(d: YamlDocV) -> Seq<char> {
    dump_scalars(d.scalars) + dump_arrays(d.arrays) + dump_maps(d.maps)
}

fn needs_quotes_exec(v: &[char]) -> (r: bool)
    ensures
        r == needs_quotes(v@),
{
    let n = v.len();
    if n == 0 {
        return true;
    }
    if v[0] == '"' || v[0] == '[' || v[0] == '#' || v[0] == ' ' || v[n - 1] == ' ' || v[n - 1] == ':' {
        return true;
    }
    let mut i: usize = 0;
    while i < n
        invariant
            n == v@.len(),
            i <= n,
            forall|j: int| 0 <= j < i ==> v@[j] != '\n' && v@[j] != '\r' && v@[j] != '\t',
            forall|j: int| 0 <= j < i && j + 1 < n ==> !(#[trigger] v@[j] == ':' && v@[j + 1] == ' '),
        decreases n - i,
    {
        let c = v[i];
        if c == '\n' || c == '\r' || c == '\t' {
            assert(v@[i as int] == c);
            return true;
        }
        if c == ':' && i + 1 < n && v[i + 1] == ' ' {
            assert(v@[i as int] == ':' && v@[i + 1] == ' ');
            return true;
        }
        i = i + 1;
    }
    proof {
        assert(!v@.contains('\n'));
        assert(!v@.contains('\r'));
        assert(!v@.contains('\t'));
    }
    false
}

/// Appends a scalar value: JSON-quoted when the bare form would be ambiguous.
fn write_scalar(out: &mut Vec<char>, v: &str)
    ensures
        final(out)@ == old(out)@ + scalar_out(v@),
{
    let cs = chars_of(v);
    if needs_quotes_exec(cs.as_slice()) {
        crate::json::push_quoted(out, cs.as_slice());
    } else {
        extend_chars(out, cs.as_slice());
    }
}

impl YamlDoc {
    /// The canonical text: `key: value` lines, then `key: ["a", "b"]` lines,
    /// then `key:` blocks of `  subkey: value` lines.
    pub fn dump(&self) -> (r: String)
        ensures
            r@ == dump_doc(self@),
    {
        let mut out: Vec<char> = Vec::new();
        let ns = self.scalars.len();
        let mut i: usize = 0;
        while i < ns
            invariant
                ns == self.scalars@.len(),
                i <= ns,
                out@ == dump_scalars(pairs_v(self.scalars@).take(i as int)),
            decreases ns - i,
        {
            let ghost t = pairs_v(self.scalars@).take(i + 1);
            assert(t.drop_last() =~= pairs_v(self.scalars@).take(i as int));
            extend_str(&mut out, self.scalars[i].0.as_str());
            out.push(':');
            out.push(' ');
            write_scalar(&mut out, self.scalars[i].1.as_str());
            out.push('\n');
            assert(out@ =~= dump_scalars(t));
            i = i + 1;
        }
        assert(pairs_v(self.scalars@).take(ns as int) =~= pairs_v(self.scalars@));
        let ghost part1 = out@;
        let na = self.arrays.len();
        let mut i: usize = 0;
        while i < na
            invariant
                na == self.arrays@.len(),
                i <= na,
                out@ == part1 + dump_arrays(arrays_v(self.arrays@).take(i as int)),
            decreases na - i,
        {
            let ghost t = arrays_v(self.arrays@).take(i + 1);
            assert(t.drop_last() =~= arrays_v(self.arrays@).take(i as int));
            extend_str(&mut out, self.arrays[i].0.as_str());
            out.push(':');
            out.push(' ');
            out.push('[');
            let ghost head = out@;
            let items = &self.arrays[i].1;
            let m = items.len();
            let mut j: usize = 0;
            while j < m
                invariant
                    m == items@.len(),
                    j <= m,
                    out@ == head + join_quoted(views(items@).take(j as int)),
                decreases m - j,
            {
                let ghost u = views(items@).take(j + 1);
                assert(u.drop_last() =~= views(items@).take(j as int));
                if j > 0 {
                    out.push(',');
                    out.push(' ');
                }
                let cs = chars_of(items[j].as_str());
                crate::json::push_quoted(&mut out, cs.as_slice());
                assert(out@ =~= head + join_quoted(u));
                j = j + 1;
            }
            assert(views(items@).take(m as int) =~= views(items@));
            out.push(']');
            out.push('\n');
            assert(out@ =~= part1 + dump_arrays(t));
            i = i + 1;
        }
        assert(arrays_v(self.arrays@).take(na as int) =~= arrays_v(self.arrays@));
        let ghost part2 = out@;
        let nm = self.maps.len();
        let mut i: usize = 0;
        while i < nm
            invariant
                nm == self.maps@.len(),
                i <= nm,
                out@ == part2 + dump_maps(maps_v(self.maps@).take(i as int)),
            decreases nm - i,
        {
            let ghost t = maps_v(self.maps@).take(i + 1);
            assert(t.drop_last() =~= maps_v(self.maps@).take(i as int));
            extend_str(&mut out, self.maps[i].0.as_str());
            out.push(':');
            out.push('\n');
            let ghost head = out@;
            let es = &self.maps[i].1;
            let m = es.len();
            let mut j: usize = 0;
            while j < m
                invariant
                    m == es@.len(),
                    j <= m,
                    out@ == head + dump_entries(pairs_v(es@).take(j as int)),
                decreases m - j,
            {
                let ghost u = pairs_v(es@).take(j + 1);
                assert(u.drop_last() =~= pairs_v(es@).take(j as int));
                out.push(' ');
                out.push(' ');
                extend_str(&mut out, es[j].0.as_str());
                out.push(':');
                out.push(' ');
                write_scalar(&mut out, es[j].1.as_str());
                out.push('\n');
                assert(out@ =~= head + dump_entries(u));
                j = j + 1;
            }
            assert(pairs_v(es@).take(m as int) =~= pairs_v(es@));
            assert(out@ =~= part2 + dump_maps(t));
            i = i + 1;
        }
        assert(maps_v(self.maps@).take(nm as int) =~= maps_v(self.maps@));
        string_of(out.as_slice())
    }
}


// ---------- reading back what was written ----------

/// Lines, each followed by a line break.
pub open spec fn joined_lines(ls: Seq<Seq<char>>) -> Seq<char>
    decreases ls.len(),
{
    if ls.len() == 0 {
        seq![]
    } else {
        joined_lines(ls.drop_last()) + ls.last() + seq!['\n']
    }
}

/// A line that reads back as itself: no line break, no trailing `\r`.
pub open spec fn clean_line(l: Seq<char>) -> bool {
    !l.contains('\n') && (l.len() == 0 || l.last() != '\r')
}

proof fn lemma_joined_front(ls: Seq<Seq<char>>)
    requires
        ls.len() > 0,
    ensures
        joined_lines(ls) == ls[0] + seq!['\n'] + joined_lines(ls.drop_first()),
    decreases ls.len(),
{
    if ls.len() == 1 {
        assert(ls.drop_last() =~= seq![]);
        assert(ls.drop_first() =~= seq![]);
        assert(joined_lines(ls) =~= ls[0] + seq!['\n'] + joined_lines(ls.drop_first()));
    } else {
        lemma_joined_front(ls.drop_last());
        assert(ls.drop_last().drop_first() =~= ls.drop_first().drop_last());
        assert(ls.drop_first().last() == ls.last());
        assert(joined_lines(ls) =~= ls[0] + seq!['\n'] + joined_lines(ls.drop_first()));
    }
}

pub proof fn lemma_joined_concat(a: Seq<Seq<char>>, b: Seq<Seq<char>>)
    ensures
        joined_lines(a + b) == joined_lines(a) + joined_lines(b),
    decreases b.len(),
{
    if b.len() == 0 {
        assert(a + b =~= a);
        assert(joined_lines(a) + joined_lines(b) =~= joined_lines(a));
    } else {
        assert((a + b).drop_last() =~= a + b.drop_last());
        lemma_joined_concat(a, b.drop_last());
        assert(joined_lines(a + b) =~= joined_lines(a) + joined_lines(b));
    }
}

proof fn lemma_lines_from_joined(s: Seq<char>, i: int, ls: Seq<Seq<char>>)
    requires
        0 <= i <= s.len(),
        s.skip(i) == joined_lines(ls),
        forall|k: int| 0 <= k < ls.len() ==> clean_line(#[trigger] ls[k]),
    ensures
        lines_from(s, i) == ls,
    decreases ls.len(),
{
    if ls.len() == 0 {
        assert(s.skip(i).len() == 0);
    } else {
        lemma_joined_front(ls);
        let l0 = ls[0];
        let j = i + l0.len();
        assert(clean_line(l0));
        let jl = joined_lines(ls);
        assert(jl == l0 + seq!['\n'] + joined_lines(ls.drop_first()));
        assert(jl.len() > l0.len());
        assert(s.skip(i).len() == s.len() - i);
        assert forall|t: int| i <= t < j implies s[t] != '\n' by {
            assert(s.skip(i)[t - i] == jl[t - i]);
            assert(jl[t - i] == l0[t - i]);
            if s[t] == '\n' {
                assert(l0[t - i] == '\n');
                assert(l0.contains('\n'));
            }
        }
        assert(jl[l0.len() as int] == '\n');
        assert(s.skip(i)[l0.len() as int] == s[j]);
        assert(s[j] == '\n');
        lemma_next_nl(s, i);
        assert(next_nl(s, i) == j) by {
            lemma_next_nl_at(s, i, j);
        }
        assert(s.subrange(i, j) =~= l0) by {
            assert forall|t: int| 0 <= t < l0.len() implies s.subrange(i, j)[t] == l0[t] by {
                assert(s.skip(i)[t] == l0[t]);
            }
        }
        if j > i {
            assert(s[j - 1] == l0.last());
        }
        assert(line_text(s, i, j) == l0);
        assert(s.skip(j + 1) =~= joined_lines(ls.drop_first())) by {
            assert forall|t: int| 0 <= t < s.skip(j + 1).len() implies s.skip(j + 1)[t] == joined_lines(ls.drop_first())[t] by {
                assert(s.skip(i)[l0.len() + 1 + t] == joined_lines(ls)[l0.len() + 1 + t]);
            }
        }
        lemma_lines_from_joined(s, j + 1, ls.drop_first());
        assert(lines_from(s, i) =~= seq![l0] + ls.drop_first());
        assert(seq![l0] + ls.drop_first() =~= ls);
    }
}

proof fn lemma_next_nl_at(s: Seq<char>, i: int, j: int)
    requires
        0 <= i <= j < s.len(),
        s[j] == '\n',
        forall|t: int| i <= t < j ==> s[t] != '\n',
    ensures
        next_nl(s, i) == j,
    decreases j - i,
{
    if i < j {
        lemma_next_nl_at(s, i + 1, j);
    }
}

/// The lines of joined clean lines are those lines.
pub proof fn lemma_lines_of_joined(ls: Seq<Seq<char>>)
    requires
        forall|k: int| 0 <= k < ls.len() ==> clean_line(#[trigger] ls[k]),
    ensures
        lines(joined_lines(ls)) == ls,
{
    let s = joined_lines(ls);
    assert(s.skip(0) =~= s);
    lemma_lines_from_joined(s, 0, ls);
}

proof fn lemma_trim_start_len(s: Seq<char>)
    ensures
        trim_start(s).len() <= s.len(),
        s.len() > 0 && is_ws(s[0]) ==> trim_start(s).len() < s.len(),
        s.len() > 0 && !is_ws(s[0]) ==> trim_start(s) == s,
    decreases s.len(),
{
    if s.len() > 0 && is_ws(s[0]) {
        lemma_trim_start_len(s.drop_first());
    }
}

proof fn lemma_trim_end_len(s: Seq<char>)
    ensures
        trim_end(s).len() <= s.len(),
        s.len() > 0 && is_ws(s.last()) ==> trim_end(s).len() < s.len(),
        s.len() > 0 && !is_ws(s.last()) ==> trim_end(s) == s,
    decreases s.len(),
{
    if s.len() > 0 && is_ws(s.last()) {
        lemma_trim_end_len(s.drop_last());
    }
}

/// A text with no white space at either end is its own trim.
proof fn lemma_trim_id(x: Seq<char>)
    requires
        x.len() > 0,
        !is_ws(x[0]),
        !is_ws(x.last()),
    ensures
        trim(x) == x,
        trim_end(x) == x,
        trim_start(x) == x,
{
    lemma_trim_start_len(x);
    lemma_trim_end_len(x);
}

/// When a text is its own trim, its ends are not white space.
proof fn lemma_trim_fixed(x: Seq<char>)
    requires
        x.len() > 0,
        trim(x) == x,
    ensures
        !is_ws(x[0]),
        !is_ws(x.last()),
{
    lemma_trim_start_len(x);
    lemma_trim_end_len(trim_start(x));
    if is_ws(x[0]) {
        assert(trim(x).len() < x.len());
    }
    if !is_ws(x[0]) {
        assert(trim_start(x) == x);
    }
}


/// A scalar that reads back as written: quoted, or free of white space at
/// its ends (the bare form is trimmed when read).
pub open spec fn safe_scalar(v: Seq<char>) -> bool {
    needs_quotes(v) || trim(v) == v
}

proof fn lemma_key_chars(key: Seq<char>)
    requires
        is_key(key),
    ensures
        trim(key) == key,
        forall|t: int| 0 <= t < key.len() ==> #[trigger] key[t] != ':' && !is_ws(key[t]) && key[t] != '#' && key[t]
            != '\n' && key[t] != '\r' && key[t] != ' ',
{
    assert forall|t: int| 0 <= t < key.len() implies #[trigger] key[t] != ':' && !is_ws(key[t]) && key[t] != '#'
        && key[t] != '\n' && key[t] != '\r' && key[t] != ' ' by {
        assert(is_key_char(key[t]));
    }
    lemma_trim_id(key);
}

proof fn lemma_quote_clean(v: Seq<char>)
    ensures
        quote(v).len() >= 2,
        quote(v)[0] == '"',
        quote(v).last() == '"',
        !quote(v).contains('\n'),
        !quote(v).contains('\r'),
{
    crate::json::lemma_esc_clean(v);
    let q = quote(v);
    let e = crate::json::esc_all(v);
    assert forall|t: int| 0 <= t < q.len() implies q[t] != '\n' && q[t] != '\r' by {
        if 0 < t < q.len() - 1 {
            assert(q[t] == e[t - 1]);
        }
    }
}

/// What a written scalar looks like, and that it reads back.
proof fn lemma_scalar_out(v: Seq<char>)
    requires
        safe_scalar(v),
    ensures
        scalar_out(v).len() > 0,
        !is_ws(scalar_out(v)[0]),
        !is_ws(scalar_out(v).last()),
        scalar_out(v)[0] != '[',
        scalar_out(v)[0] != '#',
        !scalar_out(v).contains('\n'),
        !scalar_out(v).contains('\r'),
        scalar_out(v).last() != '\r',
        scalar_spec(scalar_out(v)) == Some(v),
{
    if needs_quotes(v) {
        lemma_quote_clean(v);
        assert(crate::json::dump_v(JsonV::Str(v), None, 0) == quote(v));
        assert(crate::json::well_formed(JsonV::Str(v)));
        crate::json::lemma_dump_parses_back(JsonV::Str(v), None);
    } else {
        lemma_trim_fixed(v);
    }
}

/// `key: rest` splits into the key and ` rest`, which trims to `rest`.
proof fn lemma_kv_line(key: Seq<char>, o: Seq<char>)
    requires
        is_key(key),
        o.len() > 0,
        !is_ws(o[0]),
        !is_ws(o.last()),
    ensures
        split_key_spec(key + colon_sp() + o) == Some((key, seq![' '] + o)),
        trim(seq![' '] + o) == o,
{
    lemma_key_chars(key);
    let line = key + colon_sp() + o;
    assert(line[key.len() as int] == ':');
    assert forall|j: int| 0 <= j < key.len() implies line[j] != ':' by {
        assert(line[j] == key[j]);
    }
    lemma_first_colon_at(line, key.len() as int);
    assert(line.take(key.len() as int) =~= key);
    assert(line.skip(key.len() as int + 1) =~= seq![' '] + o);
    let so = seq![' '] + o;
    assert(so.drop_first() =~= o);
    lemma_trim_start_len(o);
    assert(trim_start(so) == trim_start(o));
    lemma_trim_id(o);
}

/// `key:` splits into the key and nothing.
proof fn lemma_header_line(key: Seq<char>)
    requires
        is_key(key),
    ensures
        split_key_spec(key + seq![':']) == Some((key, Seq::<char>::empty())),
        trim(Seq::<char>::empty()) == Seq::<char>::empty(),
{
    lemma_key_chars(key);
    let line = key + seq![':'];
    assert(line[key.len() as int] == ':');
    assert forall|j: int| 0 <= j < key.len() implies line[j] != ':' by {
        assert(line[j] == key[j]);
    }
    lemma_first_colon_at(line, key.len() as int);
    assert(line.take(key.len() as int) =~= key);
    assert(line.skip(key.len() as int + 1) =~= Seq::<char>::empty());
}


proof fn lemma_join_quoted_prefix(items: Seq<Seq<char>>, k: int)
    requires
        0 <= k <= items.len(),
    ensures
        join_quoted(items.take(k)).len() <= join_quoted(items).len(),
        join_quoted(items).take(join_quoted(items.take(k)).len() as int) == join_quoted(items.take(k)),
    decreases items.len() - k,
{
    if k == items.len() {
        assert(items.take(k) =~= items);
        assert(join_quoted(items).take(join_quoted(items).len() as int) =~= join_quoted(items));
    } else {
        lemma_join_quoted_prefix(items, k + 1);
        let t = items.take(k + 1);
        assert(t.drop_last() =~= items.take(k));
        let pre = join_quoted(items.take(k));
        assert(join_quoted(t).take(pre.len() as int) =~= pre);
        assert(join_quoted(items).take(pre.len() as int) =~= pre);
    }
}

/// The text of an inline array.
pub open spec fn array_text(items: Seq<Seq<char>>) -> Seq<char> {
    seq!['['] + join_quoted(items) + seq![']']
}

/// Where item `k` of an inline array stands: its separator from `p`, its
/// quoted text from `qs`, and what follows it.
proof fn lemma_qi_positions(items: Seq<Seq<char>>, k: int)
    requires
        items.len() > 0,
        0 <= k < items.len(),
    ensures
        ({
            let s = array_text(items);
            let p: int = if k == 0 {
                0
            } else {
                1 + join_quoted(items.take(k)).len() as int
            };
            let qs: int = if k == 0 {
                1
            } else {
                p + 2
            };
            let j: int = qs + quote(items[k]).len();
            &&& crate::json::has_text(s, qs, quote(items[k]))
            &&& (k > 0 ==> s[p + 1] == ' ')
            &&& j == 1 + join_quoted(items.take(k + 1)).len()
            &&& j < s.len()
            &&& (k + 1 < items.len() ==> s[j] == ',')
            &&& (k + 1 == items.len() ==> s[j] == ']' && j + 1 == s.len())
        }),
{
    let s = array_text(items);
    let jq = join_quoted(items);
    let pre = join_quoted(items.take(k));
    let pl: int = pre.len() as int;
    let t = items.take(k + 1);
    assert(t.drop_last() =~= items.take(k));
    assert(t.last() == items[k]);
    let sep: Seq<char> = if k > 0 {
        seq![',', ' ']
    } else {
        seq![]
    };
    let q = quote(items[k]);
    assert(join_quoted(t) == pre + sep + q);
    lemma_join_quoted_prefix(items, k + 1);
    let cur = join_quoted(t);
    assert(crate::json::has_text(s, 1, jq)) by {
        assert forall|x: int| 0 <= x < jq.len() implies s[1 + x] == #[trigger] jq[x] by {}
    }
    crate::json::lemma_has_prefix(s, 1, jq, cur.len() as int);
    assert(cur == pre + (sep + q));
    crate::json::lemma_has_text_split(s, 1, pre, sep + q);
    crate::json::lemma_has_text_split(s, 1 + pl, sep, q);
    if k == 0 {
        assert(items.take(0) =~= seq![]);
        assert(pl == 0);
    } else {
        assert(s[1 + pl + 1] == sep[1]);
    }
    let j: int = 1 + pl + sep.len() + q.len();
    if k + 1 < items.len() {
        lemma_join_quoted_prefix(items, k + 2);
        let t2 = items.take(k + 2);
        assert(t2.drop_last() =~= t);
        let nxt = join_quoted(t2);
        assert(nxt == cur + seq![',', ' '] + quote(items[k + 1]));
        crate::json::lemma_has_prefix(s, 1, jq, nxt.len() as int);
        assert(s[1 + cur.len() as int] == nxt[cur.len() as int]);
    } else {
        assert(t =~= items);
    }
}

proof fn lemma_quoted_items(items: Seq<Seq<char>>, k: int)
    requires
        items.len() > 0,
        0 <= k < items.len(),
    ensures
        crate::json::p_items(
            array_text(items),
            if k == 0 {
                0
            } else {
                1 + join_quoted(items.take(k)).len() as int
            },
            crate::model::strs_json(items.take(k)),
        ) == Some((JsonV::Arr(crate::model::strs_json(items)), array_text(items).len() as int)),
    decreases items.len() - k,
{
    let s = array_text(items);
    lemma_qi_positions(items, k);
    let p: int = if k == 0 {
        0
    } else {
        1 + join_quoted(items.take(k)).len() as int
    };
    let qs: int = if k == 0 {
        1
    } else {
        p + 2
    };
    let q = quote(items[k]);
    let j: int = qs + q.len();
    lemma_quote_clean(items[k]);
    assert(s[qs + 0] == q[0]);
    if k == 0 {
        crate::json::lemma_skip_run(s, 1, 1);
    } else {
        assert(crate::json::is_jws(s[p + 1]));
        crate::json::lemma_skip_run(s, p + 1, p + 2);
    }
    assert(crate::json::dump_v(JsonV::Str(items[k]), None, 0) == q);
    crate::json::lemma_value_reads_back(JsonV::Str(items[k]), None, 0, s, qs);
    crate::json::lemma_skip_run(s, j, j);
    let t = items.take(k + 1);
    assert(t.drop_last() =~= items.take(k));
    assert(crate::model::strs_json(t) =~= crate::model::strs_json(items.take(k)).push(JsonV::Str(items[k])));
    if k + 1 < items.len() {
        lemma_quoted_items(items, k + 1);
    } else {
        assert(t =~= items);
    }
}

proof fn lemma_str_items_strs(items: Seq<Seq<char>>)
    ensures
        str_items(crate::model::strs_json(items)) == Some(items),
    decreases items.len(),
{
    if items.len() > 0 {
        assert(crate::model::strs_json(items).drop_last() =~= crate::model::strs_json(items.drop_last()));
        lemma_str_items_strs(items.drop_last());
        assert(items.drop_last().push(items.last()) =~= items);
    } else {
        assert(crate::model::strs_json(items) =~= seq![]);
    }
}

proof fn lemma_open_bracket(s: Seq<char>)
    requires
        s.len() >= 2,
        s[0] == '[',
        !crate::json::is_jws(s[1]),
    ensures
        s[1] == ']' ==> crate::json::p_value(s, 0) == Some((JsonV::Arr(seq![]), 2int)),
        s[1] != ']' ==> crate::json::p_value(s, 0) == crate::json::p_items(s, 0, seq![]),
{
    crate::json::lemma_skip_run(s, 1, 1);
}

/// An inline array reads back as its items.
proof fn lemma_array_text(items: Seq<Seq<char>>)
    ensures
        array_spec(array_text(items)) == Some(items),
        array_text(items)[0] == '[',
        array_text(items).last() == ']',
        !array_text(items).contains('\n'),
        !array_text(items).contains('\r'),
{
    let s = array_text(items);
    lemma_str_items_strs(items);
    crate::json::lemma_skip_run(s, 0, 0);
    if items.len() == 0 {
        assert(s =~= seq!['[', ']']);
        lemma_open_bracket(s);
        crate::json::lemma_skip_run(s, 2, 2);
        assert(crate::model::strs_json(items) =~= seq![]);
    } else {
        lemma_quoted_items(items, 0);
        assert(items.take(0) =~= seq![]);
        assert(crate::model::strs_json(items.take(0)) =~= seq![]);
        assert(s[1] == '"') by {
            lemma_join_quoted_prefix(items, 1);
            let t1 = items.take(1);
            assert(t1.drop_last() =~= Seq::<Seq<char>>::empty());
            assert(join_quoted(t1.drop_last()) == Seq::<char>::empty());
            assert(t1.last() == items[0]);
            assert(join_quoted(t1) =~= quote(items[0]));
            lemma_quote_clean(items[0]);
            assert(join_quoted(items)[0] == quote(items[0])[0]);
        }
        lemma_open_bracket(s);
        crate::json::lemma_skip_run(s, s.len() as int, s.len() as int);
    }
    lemma_join_quoted_clean(items);
    assert forall|t: int| 0 <= t < s.len() implies s[t] != '\n' && s[t] != '\r' by {
        if 0 < t < s.len() - 1 {
            assert(s[t] == join_quoted(items)[t - 1]);
        }
    }
}

proof fn lemma_join_quoted_clean(items: Seq<Seq<char>>)
    ensures
        forall|t: int| 0 <= t < join_quoted(items).len() ==> #[trigger] join_quoted(items)[t] != '\n' && join_quoted(items)[t]
            != '\r',
    decreases items.len(),
{
    if items.len() > 0 {
        lemma_join_quoted_clean(items.drop_last());
        lemma_quote_clean(items.last());
        let pre = join_quoted(items.drop_last());
        let sep: Seq<char> = if items.len() > 1 {
            seq![',', ' ']
        } else {
            seq![]
        };
        let q = quote(items.last());
        assert(join_quoted(items) == pre + sep + q);
        assert forall|t: int| 0 <= t < join_quoted(items).len() implies #[trigger] join_quoted(items)[t] != '\n'
            && join_quoted(items)[t] != '\r' by {
            if t < pre.len() {
                assert(join_quoted(items)[t] == pre[t]);
            } else if t < pre.len() + sep.len() {
                assert(join_quoted(items)[t] == sep[t - pre.len()]);
            } else {
                assert(join_quoted(items)[t] == q[t - pre.len() - sep.len()]);
                if q[t - pre.len() - sep.len()] == '\n' {
                    assert(q.contains('\n'));
                }
                if q[t - pre.len() - sep.len()] == '\r' {
                    assert(q.contains('\r'));
                }
            }
        }
    }
}

// ---------- a written document reads back ----------

/// A top-level `key: value` line.
pub open spec fn scalar_line(p: (Seq<char>, Seq<char>)) -> Seq<char> {
    p.0 + colon_sp() + scalar_out(p.1)
}

/// A top-level `key: [...]` line.
pub open spec fn array_line(p: (Seq<char>, Seq<Seq<char>>)) -> Seq<char> {
    p.0 + colon_sp() + array_text(p.1)
}

/// The `key:` line that opens a block.
pub open spec fn header_line(k: Seq<char>) -> Seq<char> {
    k + seq![':']
}

/// An indented `  key: value` line of a block.
pub open spec fn entry_line(p: (Seq<char>, Seq<char>)) -> Seq<char> {
    seq![' ', ' '] + p.0 + colon_sp() + scalar_out(p.1)
}

pub open spec fn scalar_lines(s: Seq<(Seq<char>, Seq<char>)>) -> Seq<Seq<char>> {
    s.map_values(|p: (Seq<char>, Seq<char>)| scalar_line(p))
}

pub open spec fn array_lines(a: Seq<(Seq<char>, Seq<Seq<char>>)>) -> Seq<Seq<char>> {
    a.map_values(|p: (Seq<char>, Seq<Seq<char>>)| array_line(p))
}

pub open spec fn entry_lines(es: Seq<(Seq<char>, Seq<char>)>) -> Seq<Seq<char>> {
    es.map_values(|p: (Seq<char>, Seq<char>)| entry_line(p))
}

pub open spec fn map_lines(m: Seq<(Seq<char>, Seq<(Seq<char>, Seq<char>)>)>) -> Seq<Seq<char>>
    decreases m.len(),
{
    if m.len() == 0 {
        seq![]
    } else {
        map_lines(m.drop_last()) + seq![header_line(m.last().0)] + entry_lines(m.last().1)
    }
}

/// The lines of a written document.
pub open spec fn doc_lines(d: YamlDocV) -> Seq<Seq<char>> {
    scalar_lines(d.scalars) + array_lines(d.arrays) + map_lines(d.maps)
}

/// A document that the writer can write so that it reads back: every key
/// `[A-Za-z0-9_-]+`, every scalar safe.
pub open spec fn doc_ok(d: YamlDocV) -> bool {
    &&& forall|i: int|
        0 <= i < d.scalars.len() ==> is_key((#[trigger] d.scalars[i]).0) && safe_scalar(
            d.scalars[i].1,
        )
    &&& forall|i: int| 0 <= i < d.arrays.len() ==> is_key((#[trigger] d.arrays[i]).0)
    &&& forall|i: int| 0 <= i < d.maps.len() ==> is_key((#[trigger] d.maps[i]).0) && entries_ok(d.maps[i].1)
}

pub open spec fn entries_ok(es: Seq<(Seq<char>, Seq<char>)>) -> bool {
    forall|j: int| 0 <= j < es.len() ==> is_key((#[trigger] es[j]).0) && safe_scalar(es[j].1)
}

proof fn lemma_joined_one(ls: Seq<Seq<char>>, l: Seq<char>)
    ensures
        joined_lines(ls.push(l)) == joined_lines(ls) + l + seq!['\n'],
{
    assert(ls.push(l).drop_last() =~= ls);
}

proof fn lemma_dump_scalars(s: Seq<(Seq<char>, Seq<char>)>)
    ensures
        dump_scalars(s) == joined_lines(scalar_lines(s)),
    decreases s.len(),
{
    if s.len() > 0 {
        lemma_dump_scalars(s.drop_last());
        assert(scalar_lines(s) =~= scalar_lines(s.drop_last()).push(scalar_line(s.last())));
        lemma_joined_one(scalar_lines(s.drop_last()), scalar_line(s.last()));
        assert(dump_scalars(s) =~= joined_lines(scalar_lines(s)));
    } else {
        assert(scalar_lines(s) =~= seq![]);
    }
}

proof fn lemma_dump_arrays(a: Seq<(Seq<char>, Seq<Seq<char>>)>)
    ensures
        dump_arrays(a) == joined_lines(array_lines(a)),
    decreases a.len(),
{
    if a.len() > 0 {
        lemma_dump_arrays(a.drop_last());
        assert(array_lines(a) =~= array_lines(a.drop_last()).push(array_line(a.last())));
        lemma_joined_one(array_lines(a.drop_last()), array_line(a.last()));
        assert(dump_arrays(a) =~= joined_lines(array_lines(a)));
    } else {
        assert(array_lines(a) =~= seq![]);
    }
}

proof fn lemma_dump_entries(es: Seq<(Seq<char>, Seq<char>)>)
    ensures
        dump_entries(es) == joined_lines(entry_lines(es)),
    decreases es.len(),
{
    if es.len() > 0 {
        lemma_dump_entries(es.drop_last());
        assert(entry_lines(es) =~= entry_lines(es.drop_last()).push(entry_line(es.last())));
        lemma_joined_one(entry_lines(es.drop_last()), entry_line(es.last()));
        assert(dump_entries(es) =~= joined_lines(entry_lines(es)));
    } else {
        assert(entry_lines(es) =~= seq![]);
    }
}

proof fn lemma_dump_maps(m: Seq<(Seq<char>, Seq<(Seq<char>, Seq<char>)>)>)
    ensures
        dump_maps(m) == joined_lines(map_lines(m)),
    decreases m.len(),
{
    if m.len() > 0 {
        lemma_dump_maps(m.drop_last());
        lemma_dump_entries(m.last().1);
        let pre = map_lines(m.drop_last());
        let h = header_line(m.last().0);
        let el = entry_lines(m.last().1);
        lemma_joined_concat(pre + seq![h], el);
        lemma_joined_concat(pre, seq![h]);
        lemma_joined_one(Seq::<Seq<char>>::empty(), h);
        assert(Seq::<Seq<char>>::empty().push(h) =~= seq![h]);
        assert(dump_maps(m) =~= joined_lines(map_lines(m)));
    }
}

proof fn lemma_dump_doc(d: YamlDocV)
    ensures
        dump_doc(d) == joined_lines(doc_lines(d)),
{
    lemma_dump_scalars(d.scalars);
    lemma_dump_arrays(d.arrays);
    lemma_dump_maps(d.maps);
    lemma_joined_concat(scalar_lines(d.scalars) + array_lines(d.arrays), map_lines(d.maps));
    lemma_joined_concat(scalar_lines(d.scalars), array_lines(d.arrays));
    assert(dump_doc(d) =~= joined_lines(doc_lines(d)));
}

pub proof fn lemma_concat_lacks(a: Seq<char>, b: Seq<char>, c: char)
    requires
        !a.contains(c),
        !b.contains(c),
    ensures
        !(a + b).contains(c),
{
    assert forall|t: int| 0 <= t < (a + b).len() implies (a + b)[t] != c by {
        if t < a.len() {
            assert((a + b)[t] == a[t]);
            if a[t] == c {
                assert(a.contains(c));
            }
        } else {
            assert((a + b)[t] == b[t - a.len()]);
            if b[t - a.len()] == c {
                assert(b.contains(c));
            }
        }
    }
}

/// A `key: o` line with `o` free of white space at its ends: its own trim,
/// starting with the key.
proof fn lemma_kv_shape(key: Seq<char>, o: Seq<char>)
    requires
        is_key(key),
        o.len() > 0,
        !is_ws(o[0]),
        !is_ws(o.last()),
        !o.contains('\n'),
    ensures
        ({
            let line = key + colon_sp() + o;
            &&& line.len() > 0
            &&& line[0] == key[0]
            &&& line.last() == o.last()
            &&& trim_end(line) == line
            &&& trim_start(line) == line
            &&& trim(line) == line
            &&& !line.contains('\n')
            &&& (!o.contains('\r') ==> !line.contains('\r'))
        }),
{
    lemma_key_chars(key);
    let line = key + colon_sp() + o;
    assert(line[0] == key[0]);
    assert(line.last() == o.last());
    lemma_trim_id(line);
    lemma_concat_lacks(key, colon_sp(), '\n');
    lemma_concat_lacks(key + colon_sp(), o, '\n');
    assert(!key.contains('\r'));
    assert(!colon_sp().contains('\r')) by {
        assert(colon_sp()[0] == ':' && colon_sp()[1] == ' ');
    }
    lemma_concat_lacks(key, colon_sp(), '\r');
    if !o.contains('\r') {
        lemma_concat_lacks(key + colon_sp(), o, '\r');
    }
}

/// The lines of a written document are clean.
proof fn lemma_doc_lines_clean(d: YamlDocV)
    requires
        doc_ok(d),
    ensures
        forall|k: int| 0 <= k < doc_lines(d).len() ==> clean_line(#[trigger] doc_lines(d)[k]),
{
    lemma_doc_lines_shape(d);
    let dl = doc_lines(d);
    assert forall|k: int| 0 <= k < dl.len() implies clean_line(#[trigger] dl[k]) by {
        assert(dl[k].len() > 0 && !dl[k].contains('\r'));
        assert(dl[k].last() == dl[k][dl[k].len() - 1]);
    }
}

/// A `key: value` line adds its scalar.
proof fn lemma_step_scalar(ls: Seq<Seq<char>>, idx: int, d: YamlDocV, p: (Seq<char>, Seq<char>))
    requires
        0 <= idx < ls.len(),
        ls[idx] == scalar_line(p),
        is_key(p.0),
        safe_scalar(p.1),
    ensures
        p_lines(ls, idx, d) == p_lines(ls, idx + 1, YamlDocV { scalars: d.scalars.push(p), ..d }),
{
    let o = scalar_out(p.1);
    lemma_scalar_out(p.1);
    lemma_kv_shape(p.0, o);
    lemma_kv_line(p.0, o);
    lemma_key_chars(p.0);
    let line = trim_end(ls[idx]);
    assert(line == ls[idx]);
    assert(!is_blank(line));
    assert(!is_comment(line));
}

/// A `key: [...]` line adds its array.
proof fn lemma_step_array(ls: Seq<Seq<char>>, idx: int, d: YamlDocV, p: (Seq<char>, Seq<Seq<char>>))
    requires
        0 <= idx < ls.len(),
        ls[idx] == array_line(p),
        is_key(p.0),
    ensures
        p_lines(ls, idx, d) == p_lines(ls, idx + 1, YamlDocV { arrays: d.arrays.push(p), ..d }),
{
    let o = array_text(p.1);
    lemma_array_text(p.1);
    assert(o.len() > 0);
    lemma_kv_shape(p.0, o);
    lemma_kv_line(p.0, o);
    lemma_key_chars(p.0);
    let line = trim_end(ls[idx]);
    assert(line == ls[idx]);
    assert(!is_blank(line));
    assert(!is_comment(line));
}

/// An indented `  key: value` line adds its entry to the block.
proof fn lemma_step_entry(
    ls: Seq<Seq<char>>,
    k: int,
    es: Seq<(Seq<char>, Seq<char>)>,
    p: (Seq<char>, Seq<char>),
)
    requires
        0 <= k < ls.len(),
        ls[k] == entry_line(p),
        is_key(p.0),
        safe_scalar(p.1),
    ensures
        p_block(ls, k, es) == p_block(ls, k + 1, es.push(p)),
{
    let o = scalar_out(p.1);
    lemma_scalar_out(p.1);
    lemma_kv_shape(p.0, o);
    lemma_kv_line(p.0, o);
    lemma_key_chars(p.0);
    let inner = p.0 + colon_sp() + o;
    let nx = ls[k];
    assert(nx =~= seq![' ', ' '] + inner);
    assert(nx.last() == o.last());
    lemma_trim_end_len(nx);
    assert(trim_end(nx) == nx);
    lemma_trim_start_skip(nx, 2);
    assert(nx.skip(2) =~= inner);
    assert(trim_start(nx) == inner);
    assert(!is_blank(nx));
    assert(is_indented(nx));
    assert(trim_start(trim_end(nx)) == inner);
}

/// A block ends at the end of the lines or at a `key:` line.
proof fn lemma_block_stop(ls: Seq<Seq<char>>, k: int, es: Seq<(Seq<char>, Seq<char>)>)
    requires
        0 <= k <= ls.len(),
        k < ls.len() ==> exists|key: Seq<char>| is_key(key) && ls[k] == #[trigger] header_line(key),
    ensures
        p_block(ls, k, es) == Some((es, k)),
{
    if k < ls.len() {
        let key = choose|key: Seq<char>| is_key(key) && ls[k] == #[trigger] header_line(key);
        lemma_key_chars(key);
        let h = ls[k];
        assert(h[0] == key[0]);
        assert(h.last() == ':');
        lemma_trim_id(h);
        assert(!is_indented(h));
        assert(!is_blank(h));
    }
}

/// The entry lines of a block read back as its entries.
proof fn lemma_block(
    ls: Seq<Seq<char>>,
    k: int,
    es: Seq<(Seq<char>, Seq<char>)>,
    t: int,
)
    requires
        0 <= k,
        0 <= t <= es.len(),
        k + es.len() <= ls.len(),
        entries_ok(es),
        forall|u: int| 0 <= u < es.len() ==> ls[k + u] == #[trigger] entry_line(es[u]),
        k + es.len() < ls.len() ==> exists|key: Seq<char>|
            is_key(key) && ls[k + es.len()] == #[trigger] header_line(key),
    ensures
        p_block(ls, k + t, es.take(t)) == Some((es, k + es.len())),
    decreases es.len() - t,
{
    if t == es.len() {
        assert(es.take(t) =~= es);
        lemma_block_stop(ls, k + t, es);
    } else {
        assert(is_key(es[t].0) && safe_scalar(es[t].1));
        assert(ls[k + t] == entry_line(es[t]));
        lemma_step_entry(ls, k + t, es.take(t), es[t]);
        assert(es.take(t).push(es[t]) =~= es.take(t + 1));
        lemma_block(ls, k, es, t + 1);
    }
}

/// A `key:` line and its block add the map.
proof fn lemma_step_map(
    ls: Seq<Seq<char>>,
    idx: int,
    d: YamlDocV,
    p: (Seq<char>, Seq<(Seq<char>, Seq<char>)>),
)
    requires
        0 <= idx,
        idx + 1 + p.1.len() <= ls.len(),
        ls[idx] == header_line(p.0),
        is_key(p.0),
        entries_ok(p.1),
        forall|u: int| 0 <= u < p.1.len() ==> ls[idx + 1 + u] == #[trigger] entry_line(p.1[u]),
        idx + 1 + p.1.len() < ls.len() ==> exists|key: Seq<char>|
            is_key(key) && ls[idx + 1 + p.1.len()] == #[trigger] header_line(key),
    ensures
        p_lines(ls, idx, d) == p_lines(
            ls,
            idx + 1 + p.1.len(),
            YamlDocV { maps: d.maps.push(p), ..d },
        ),
{
    lemma_key_chars(p.0);
    let h = ls[idx];
    assert(h[0] == p.0[0]);
    assert(h.last() == ':');
    lemma_trim_id(h);
    assert(trim_end(h) == h);
    assert(!is_blank(h));
    assert(!is_comment(h));
    lemma_header_line(p.0);
    lemma_block(ls, idx + 1, p.1, 0);
    assert(p.1.take(0) =~= Seq::<(Seq<char>, Seq<char>)>::empty());
}

proof fn lemma_scalars_section(
    ls: Seq<Seq<char>>,
    off: int,
    s: Seq<(Seq<char>, Seq<char>)>,
    t: int,
    a: Seq<(Seq<char>, Seq<Seq<char>>)>,
    m: Seq<(Seq<char>, Seq<(Seq<char>, Seq<char>)>)>,
)
    requires
        0 <= off,
        0 <= t <= s.len(),
        off + s.len() <= ls.len(),
        forall|i: int| 0 <= i < s.len() ==> is_key((#[trigger] s[i]).0) && safe_scalar(s[i].1),
        forall|u: int| 0 <= u < s.len() ==> ls[off + u] == #[trigger] scalar_line(s[u]),
    ensures
        p_lines(ls, off + t, YamlDocV { scalars: s.take(t), arrays: a, maps: m }) == p_lines(
            ls,
            off + s.len(),
            YamlDocV { scalars: s, arrays: a, maps: m },
        ),
    decreases s.len() - t,
{
    if t == s.len() {
        assert(s.take(t) =~= s);
    } else {
        assert(is_key(s[t].0) && safe_scalar(s[t].1));
        assert(ls[off + t] == scalar_line(s[t]));
        lemma_step_scalar(ls, off + t, YamlDocV { scalars: s.take(t), arrays: a, maps: m }, s[t]);
        assert(s.take(t).push(s[t]) =~= s.take(t + 1));
        lemma_scalars_section(ls, off, s, t + 1, a, m);
    }
}

proof fn lemma_arrays_section(
    ls: Seq<Seq<char>>,
    off: int,
    sc: Seq<(Seq<char>, Seq<char>)>,
    a: Seq<(Seq<char>, Seq<Seq<char>>)>,
    t: int,
    m: Seq<(Seq<char>, Seq<(Seq<char>, Seq<char>)>)>,
)
    requires
        0 <= off,
        0 <= t <= a.len(),
        off + a.len() <= ls.len(),
        forall|i: int| 0 <= i < a.len() ==> is_key((#[trigger] a[i]).0),
        forall|u: int| 0 <= u < a.len() ==> ls[off + u] == #[trigger] array_line(a[u]),
    ensures
        p_lines(ls, off + t, YamlDocV { scalars: sc, arrays: a.take(t), maps: m }) == p_lines(
            ls,
            off + a.len(),
            YamlDocV { scalars: sc, arrays: a, maps: m },
        ),
    decreases a.len() - t,
{
    if t == a.len() {
        assert(a.take(t) =~= a);
    } else {
        assert(is_key(a[t].0));
        assert(ls[off + t] == array_line(a[t]));
        lemma_step_array(ls, off + t, YamlDocV { scalars: sc, arrays: a.take(t), maps: m }, a[t]);
        assert(a.take(t).push(a[t]) =~= a.take(t + 1));
        lemma_arrays_section(ls, off, sc, a, t + 1, m);
    }
}

proof fn lemma_map_lines_prefix(m: Seq<(Seq<char>, Seq<(Seq<char>, Seq<char>)>)>, j: int)
    requires
        0 <= j <= m.len(),
    ensures
        map_lines(m.take(j)).len() <= map_lines(m).len(),
        map_lines(m).take(map_lines(m.take(j)).len() as int) == map_lines(m.take(j)),
    decreases m.len() - j,
{
    if j == m.len() {
        assert(m.take(j) =~= m);
        assert(map_lines(m).take(map_lines(m).len() as int) =~= map_lines(m));
    } else {
        lemma_map_lines_prefix(m, j + 1);
        let t = m.take(j + 1);
        assert(t.drop_last() =~= m.take(j));
        let pre = map_lines(m.take(j));
        assert(map_lines(t).take(pre.len() as int) =~= pre);
        assert(map_lines(m).take(pre.len() as int) =~= pre);
    }
}

proof fn lemma_maps_section(
    ls: Seq<Seq<char>>,
    off: int,
    sc: Seq<(Seq<char>, Seq<char>)>,
    a: Seq<(Seq<char>, Seq<Seq<char>>)>,
    m: Seq<(Seq<char>, Seq<(Seq<char>, Seq<char>)>)>,
    j: int,
)
    requires
        0 <= off,
        0 <= j <= m.len(),
        ls.len() == off + map_lines(m).len(),
        forall|u: int| 0 <= u < map_lines(m).len() ==> ls[off + u] == #[trigger] map_lines(m)[u],
        forall|i: int| 0 <= i < m.len() ==> is_key((#[trigger] m[i]).0) && entries_ok(m[i].1),
    ensures
        p_lines(
            ls,
            off + map_lines(m.take(j)).len(),
            YamlDocV { scalars: sc, arrays: a, maps: m.take(j) },
        ) == Some(YamlDocV { scalars: sc, arrays: a, maps: m }),
    decreases m.len() - j,
{
    let ml = map_lines(m);
    if j == m.len() {
        assert(m.take(j) =~= m);
    } else {
        let pre = map_lines(m.take(j));
        let l = pre.len() as int;
        let t1 = m.take(j + 1);
        assert(t1.drop_last() =~= m.take(j));
        assert(t1.last() == m[j]);
        let es = m[j].1;
        let el = entry_lines(es);
        assert(map_lines(t1) == pre + seq![header_line(m[j].0)] + el);
        lemma_map_lines_prefix(m, j + 1);
        let l1 = map_lines(t1).len() as int;
        assert(l1 == l + 1 + es.len());
        assert forall|x: int| 0 <= x < l1 implies ml[x] == map_lines(t1)[x] by {
            assert(ml.take(l1)[x] == ml[x]);
        }
        assert(ls[off + l] == header_line(m[j].0)) by {
            assert(ml[l] == map_lines(t1)[l]);
        }
        assert forall|u: int| 0 <= u < es.len() implies ls[off + l + 1 + u] == #[trigger] entry_line(
            es[u],
        ) by {
            assert(ml[l + 1 + u] == map_lines(t1)[l + 1 + u]);
            assert(map_lines(t1)[l + 1 + u] == el[u]);
        }
        if off + l1 < ls.len() {
            assert(j + 1 < m.len()) by {
                if j + 1 == m.len() {
                    assert(t1 =~= m);
                }
            }
            lemma_map_lines_prefix(m, j + 2);
            let t2 = m.take(j + 2);
            assert(t2.drop_last() =~= t1);
            assert(t2.last() == m[j + 1]);
            let l2 = map_lines(t2).len() as int;
            assert(map_lines(t2) == map_lines(t1) + seq![header_line(m[j + 1].0)] + entry_lines(
                m[j + 1].1,
            ));
            assert(ml.take(l2)[l1] == ml[l1]);
            assert(ls[off + l1] == header_line(m[j + 1].0));
            assert(is_key(m[j + 1].0));
        }
        assert(is_key(m[j].0) && entries_ok(m[j].1));
        lemma_step_map(ls, off + l, YamlDocV { scalars: sc, arrays: a, maps: m.take(j) }, m[j]);
        assert(m.take(j).push(m[j]) =~= t1);
        lemma_maps_section(ls, off, sc, a, m, j + 1);
    }
}

/// A written document reads back as itself: `parse_doc(dump_doc(d)) == d`
/// for every document whose keys are `[A-Za-z0-9_-]+` and whose scalars
/// keep their ends when written bare.
pub proof fn lemma_doc_reads_back(d: YamlDocV)
    requires
        doc_ok(d),
    ensures
        parse_doc(dump_doc(d)) == Some(d),
{
    lemma_dump_doc(d);
    lemma_doc_lines_clean(d);
    let ls = doc_lines(d);
    lemma_lines_of_joined(ls);
    assert(lines(dump_doc(d)) == ls);
    let sl = scalar_lines(d.scalars);
    let al = array_lines(d.arrays);
    let ml = map_lines(d.maps);
    let ns = d.scalars.len() as int;
    let na = d.arrays.len() as int;
    assert forall|u: int| 0 <= u < ns implies ls[0 + u] == #[trigger] scalar_line(d.scalars[u]) by {
        assert(ls[u] == sl[u]);
    }
    assert forall|u: int| 0 <= u < na implies ls[ns + u] == #[trigger] array_line(d.arrays[u]) by {
        assert(ls[ns + u] == al[u]);
    }
    assert forall|u: int| 0 <= u < ml.len() implies ls[ns + na + u] == #[trigger] ml[u] by {
        assert(ls[ns + na + u] == ml[u]);
    }
    let e: Seq<(Seq<char>, Seq<char>)> = seq![];
    let ea: Seq<(Seq<char>, Seq<Seq<char>>)> = seq![];
    let em: Seq<(Seq<char>, Seq<(Seq<char>, Seq<char>)>)> = seq![];
    assert(d.scalars.take(0) =~= e);
    assert(d.arrays.take(0) =~= ea);
    assert(d.maps.take(0) =~= em);
    lemma_scalars_section(ls, 0, d.scalars, 0, ea, em);
    lemma_arrays_section(ls, ns, d.scalars, d.arrays, 0, em);
    assert(map_lines(em) =~= Seq::<Seq<char>>::empty());
    lemma_maps_section(ls, ns + na, d.scalars, d.arrays, d.maps, 0);
    assert(empty_doc() == YamlDocV { scalars: d.scalars.take(0), arrays: ea, maps: em });
}

/// Facts about the lines of a written document: each is non-empty, free of
/// `\r`, and the top-level ones start with their key.
pub proof fn lemma_doc_lines_shape(d: YamlDocV)
    requires
        doc_ok(d),
    ensures
        dump_doc(d) == joined_lines(doc_lines(d)),
        doc_lines(d).len() == d.scalars.len() + d.arrays.len() + map_lines(d.maps).len(),
        forall|k: int|
            0 <= k < doc_lines(d).len() ==> (#[trigger] doc_lines(d)[k]).len() > 0 && !doc_lines(
                d,
            )[k].contains('\n') && !doc_lines(d)[k].contains('\r'),
        forall|k: int| 0 <= k < d.scalars.len() ==> (#[trigger] doc_lines(d)[k])[0] == d.scalars[k].0[0],
        forall|k: int|
            0 <= k < d.arrays.len() ==> (#[trigger] doc_lines(d)[d.scalars.len() + k])[0]
                == d.arrays[k].0[0],
{
    lemma_dump_doc(d);
    let sl = scalar_lines(d.scalars);
    let al = array_lines(d.arrays);
    let ml = map_lines(d.maps);
    let dl = doc_lines(d);
    let ns = d.scalars.len() as int;
    assert forall|k: int| 0 <= k < sl.len() implies (#[trigger] sl[k]).len() > 0 && !sl[k].contains('\n')
        && !sl[k].contains('\r') && sl[k][0] == d.scalars[k].0[0] by {
        let p = d.scalars[k];
        assert(is_key(p.0) && safe_scalar(p.1));
        lemma_scalar_out(p.1);
        lemma_kv_shape(p.0, scalar_out(p.1));
    }
    assert forall|k: int| 0 <= k < al.len() implies (#[trigger] al[k]).len() > 0 && !al[k].contains('\n')
        && !al[k].contains('\r') && al[k][0] == d.arrays[k].0[0] by {
        let p = d.arrays[k];
        assert(is_key(p.0));
        lemma_array_text(p.1);
        lemma_kv_shape(p.0, array_text(p.1));
    }
    lemma_map_lines_plain(d.maps);
    assert forall|k: int| 0 <= k < dl.len() implies (#[trigger] dl[k]).len() > 0 && !dl[k].contains('\n')
        && !dl[k].contains('\r') by {
        if k < sl.len() {
            assert(dl[k] == sl[k]);
        } else if k < sl.len() + al.len() {
            assert(dl[k] == al[k - sl.len()]);
        } else {
            assert(dl[k] == ml[k - sl.len() - al.len()]);
        }
    }
    assert forall|k: int| 0 <= k < d.scalars.len() implies (#[trigger] dl[k])[0] == d.scalars[k].0[0] by {
        assert(dl[k] == sl[k]);
    }
    assert forall|k: int| 0 <= k < d.arrays.len() implies (#[trigger] dl[ns + k])[0]
        == d.arrays[k].0[0] by {
        assert(dl[ns + k] == al[k]);
    }
}

/// The `key:` line and the entry lines of one block.
proof fn lemma_block_lines_plain(key: Seq<char>, es: Seq<(Seq<char>, Seq<char>)>)
    requires
        is_key(key),
        entries_ok(es),
    ensures
        header_line(key).len() > 0,
        !header_line(key).contains('\n'),
        !header_line(key).contains('\r'),
        forall|k: int|
            0 <= k < es.len() ==> (#[trigger] entry_lines(es)[k]).len() > 0 && !entry_lines(
                es,
            )[k].contains('\n') && !entry_lines(es)[k].contains('\r'),
{
    lemma_key_chars(key);
    let h = header_line(key);
    assert(!seq![':'].contains('\n') && !seq![':'].contains('\r')) by {
        assert(seq![':'][0] == ':');
    }
    lemma_concat_lacks(key, seq![':'], '\n');
    lemma_concat_lacks(key, seq![':'], '\r');
    let el = entry_lines(es);
    assert forall|k: int| 0 <= k < es.len() implies (#[trigger] el[k]).len() > 0 && !el[k].contains('\n')
        && !el[k].contains('\r') by {
        let p = es[k];
        assert(is_key(p.0) && safe_scalar(p.1));
        lemma_scalar_out(p.1);
        lemma_kv_shape(p.0, scalar_out(p.1));
        let inner = p.0 + colon_sp() + scalar_out(p.1);
        assert(el[k] =~= seq![' ', ' '] + inner);
        assert(!seq![' ', ' '].contains('\n') && !seq![' ', ' '].contains('\r')) by {
            assert(seq![' ', ' '][0] == ' ' && seq![' ', ' '][1] == ' ');
        }
        lemma_concat_lacks(seq![' ', ' '], inner, '\n');
        lemma_concat_lacks(seq![' ', ' '], inner, '\r');
    }
}

proof fn lemma_map_lines_plain(m: Seq<(Seq<char>, Seq<(Seq<char>, Seq<char>)>)>)
    requires
        forall|i: int| 0 <= i < m.len() ==> is_key((#[trigger] m[i]).0) && entries_ok(m[i].1),
    ensures
        forall|k: int|
            0 <= k < map_lines(m).len() ==> (#[trigger] map_lines(m)[k]).len() > 0 && !map_lines(
                m,
            )[k].contains('\n') && !map_lines(m)[k].contains('\r'),
    decreases m.len(),
{
    if m.len() > 0 {
        lemma_map_lines_plain(m.drop_last());
        let pre = map_lines(m.drop_last());
        let key = m.last().0;
        let es = m.last().1;
        assert(is_key(m[m.len() - 1].0) && entries_ok(m[m.len() - 1].1));
        lemma_block_lines_plain(key, es);
        let h = header_line(key);
        let el = entry_lines(es);
        let ml = map_lines(m);
        assert(ml == pre + seq![h] + el);
        assert forall|k: int| 0 <= k < ml.len() implies (#[trigger] ml[k]).len() > 0 && !ml[k].contains('\n')
            && !ml[k].contains('\r') by {
            if k < pre.len() {
                assert(ml[k] == pre[k]);
            } else if k == pre.len() {
                assert(ml[k] == h);
            } else {
                assert(ml[k] == el[k - pre.len() - 1]);
            }
        }
    }
}

/// Joined lines that are non-empty, free of line breaks and `\r`, and do not
/// start with `c`: the text has no `\r`, ends with a line break, and no line
/// in it starts with `c`.
pub proof fn lemma_joined_starts(ls: Seq<Seq<char>>, c: char)
    requires
        c != '\n',
        forall|k: int|
            0 <= k < ls.len() ==> (#[trigger] ls[k]).len() > 0 && !ls[k].contains('\n')
                && !ls[k].contains('\r') && ls[k][0] != c,
    ensures
        !joined_lines(ls).contains('\r'),
        joined_lines(ls).len() >= ls.len(),
        joined_lines(ls).len() > 0 ==> joined_lines(ls)[0] != c && joined_lines(ls).last() == '\n',
        forall|i: int|
            0 <= i && i + 1 < joined_lines(ls).len() && #[trigger] joined_lines(ls)[i] == '\n'
                ==> joined_lines(ls)[i + 1] != c,
    decreases ls.len(),
{
    if ls.len() > 0 {
        let pre = ls.drop_last();
        lemma_joined_starts(pre, c);
        let jp = joined_lines(pre);
        let l = ls.last();
        assert(l == ls[ls.len() - 1]);
        let j = joined_lines(ls);
        assert(j == jp + l + seq!['\n']);
        assert forall|t: int| 0 <= t < j.len() implies j[t] != '\r' by {
            if t < jp.len() {
                assert(j[t] == jp[t]);
                if jp[t] == '\r' {
                    assert(jp.contains('\r'));
                }
            } else if t < jp.len() + l.len() {
                assert(j[t] == l[t - jp.len()]);
                if l[t - jp.len()] == '\r' {
                    assert(l.contains('\r'));
                }
            } else {
                assert(j[t] == '\n');
            }
        }
        assert forall|i: int| 0 <= i && i + 1 < j.len() && #[trigger] j[i] == '\n' implies j[i + 1] != c by {
            if i + 1 < jp.len() {
                assert(j[i] == jp[i]);
                assert(j[i + 1] == jp[i + 1]);
            } else if i + 1 == jp.len() {
                assert(j[i + 1] == l[0]);
            } else {
                assert(i >= jp.len());
                assert(i < jp.len() + l.len());
                assert(j[i] == l[i - jp.len()]);
                assert(l.contains('\n'));
            }
        }
        if jp.len() > 0 {
            assert(j[0] == jp[0]);
        } else {
            assert(j[0] == l[0]);
        }
    }
}

/// Joined lines free of `\r` are free of `\r`, and start as the first line.
pub proof fn lemma_joined_plain(ls: Seq<Seq<char>>)
    requires
        forall|k: int| 0 <= k < ls.len() ==> !(#[trigger] ls[k]).contains('\r'),
    ensures
        !joined_lines(ls).contains('\r'),
        ls.len() > 0 && ls[0].len() > 0 ==> joined_lines(ls)[0] == ls[0][0],
    decreases ls.len(),
{
    if ls.len() > 0 {
        let pre = ls.drop_last();
        lemma_joined_plain(pre);
        let l = ls.last();
        assert(l == ls[ls.len() - 1]);
        let j = joined_lines(ls);
        let jp = joined_lines(pre);
        assert(j == jp + l + seq!['\n']);
        lemma_concat_lacks(jp, l, '\r');
        assert(!seq!['\n'].contains('\r')) by {
            assert(seq!['\n'][0] == '\n');
        }
        lemma_concat_lacks(jp + l, seq!['\n'], '\r');
        if ls[0].len() > 0 {
            lemma_joined_front(ls);
        }
    }
}

// ---------- what survives a lossy read ----------

/// The names of a list of pairs.
pub open spec fn pair_keys(s: Seq<(Seq<char>, Seq<char>)>) -> Seq<Seq<char>> {
    s.map_values(|p: (Seq<char>, Seq<char>)| p.0)
}

/// Trailing white space is dropped only after the last non-white char.
pub proof fn lemma_trim_end_keeps(a: Seq<char>, b: Seq<char>)
    requires
        a.len() > 0,
        !is_ws(a.last()),
    ensures
        trim_end(a + b) == a + trim_end(b),
    decreases b.len(),
{
    if b.len() == 0 {
        assert(a + b =~= a);
        lemma_trim_end_len(a);
        assert(a + trim_end(b) =~= a);
    } else if is_ws(b.last()) {
        assert((a + b).drop_last() =~= a + b.drop_last());
        lemma_trim_end_keeps(a, b.drop_last());
    } else {
        lemma_trim_end_len(a + b);
        lemma_trim_end_len(b);
    }
}

/// Whatever a bare or quoted scalar is, its written form has no line break
/// and no `\r`, and is not empty.
proof fn lemma_scalar_out_plain(v: Seq<char>)
    ensures
        scalar_out(v).len() > 0,
        !scalar_out(v).contains('\n'),
        !scalar_out(v).contains('\r'),
{
    if needs_quotes(v) {
        lemma_quote_clean(v);
    }
}

/// A line `key:` followed by anything: after trailing white space is
/// dropped it is neither blank nor a comment nor indented, and splits into
/// the key and the rest.
pub(crate) proof fn lemma_line_start(key: Seq<char>, x: Seq<char>)
    requires
        is_key(key),
    ensures
        ({
            let line = trim_end(key + seq![':'] + x);
            &&& line == key + seq![':'] + trim_end(x)
            &&& !is_blank(line)
            &&& !is_comment(line)
            &&& line[0] != ' '
            &&& split_key_spec(line) == Some((key, trim_end(x)))
        }),
{
    lemma_key_chars(key);
    let kc = key + seq![':'];
    assert(kc.last() == ':');
    lemma_trim_end_keeps(kc, x);
    let line = kc + trim_end(x);
    assert(key + seq![':'] + x =~= kc + x);
    assert(line[0] == key[0]);
    lemma_trim_start_len(line);
    assert(trim_start(line) == line);
    lemma_trim_end_keeps(kc, trim_end(x));
    assert(trim(line).len() > 0);
    assert(line[key.len() as int] == ':');
    assert forall|j: int| 0 <= j < key.len() implies line[j] != ':' by {
        assert(line[j] == key[j]);
    }
    lemma_first_colon_at(line, key.len() as int);
    assert(line.take(key.len() as int) =~= key);
    assert(line.skip(key.len() as int + 1) =~= trim_end(x));
}

/// A line that starts with a key char ends any block before it.
proof fn lemma_block_stop_at(ls: Seq<Seq<char>>, k: int, es: Seq<(Seq<char>, Seq<char>)>)
    requires
        0 <= k <= ls.len(),
        k < ls.len() ==> ls[k].len() > 0 && is_key_char(ls[k][0]),
    ensures
        p_block(ls, k, es) == Some((es, k)),
{
    if k < ls.len() {
        let h = ls[k];
        assert(!is_ws(h[0]) && h[0] != ' ');
        lemma_trim_start_len(h);
        assert(trim_start(h) == h);
        assert(h =~= seq![h[0]] + h.drop_first());
        lemma_trim_end_keeps(seq![h[0]], h.drop_first());
        assert(!is_indented(h));
        assert(!is_blank(h));
    }
}

/// A `key: value` line, whatever the value: it fails to read, or adds the
/// key as a scalar, an array, or (when its value reads as nothing) an empty
/// block.
pub(crate) proof fn lemma_step_scalar_lossy(ls: Seq<Seq<char>>, idx: int, d: YamlDocV, key: Seq<char>, o: Seq<char>)
    requires
        0 <= idx < ls.len(),
        ls[idx] == key + colon_sp() + o,
        is_key(key),
        idx + 1 < ls.len() ==> ls[idx + 1].len() > 0 && is_key_char(ls[idx + 1][0]),
    ensures
        p_lines(ls, idx, d) is None || exists|d2: YamlDocV|
            p_lines(ls, idx, d) == p_lines(ls, idx + 1, d2) && (d2.maps == d.maps || d2.maps
                == d.maps.push((key, Seq::<(Seq<char>, Seq<char>)>::empty()))),
{
    assert(ls[idx] =~= key + seq![':'] + (seq![' '] + o));
    lemma_line_start(key, seq![' '] + o);
    lemma_block_stop_at(ls, idx + 1, seq![]);
    let line = trim_end(ls[idx]);
    let rest = trim_end(seq![' '] + o);
    let r = trim(rest);
    if r.len() == 0 {
        let d2 = YamlDocV { maps: d.maps.push((key, Seq::<(Seq<char>, Seq<char>)>::empty())), ..d };
        assert(p_lines(ls, idx, d) == p_lines(ls, idx + 1, d2));
    } else if r[0] == '[' {
        if let Some(items) = array_spec(r) {
            let d2 = YamlDocV { arrays: d.arrays.push((key, items)), ..d };
            assert(p_lines(ls, idx, d) == p_lines(ls, idx + 1, d2));
        }
    } else {
        if let Some(v) = scalar_spec(r) {
            let d2 = YamlDocV { scalars: d.scalars.push((key, v)), ..d };
            assert(p_lines(ls, idx, d) == p_lines(ls, idx + 1, d2));
        }
    }
}

/// An indented `  key: value` line, whatever the value: the block fails to
/// read, or the key joins it.
proof fn lemma_step_entry_lossy(
    ls: Seq<Seq<char>>,
    k: int,
    acc: Seq<(Seq<char>, Seq<char>)>,
    key: Seq<char>,
    o: Seq<char>,
)
    requires
        0 <= k < ls.len(),
        ls[k] == seq![' ', ' '] + key + colon_sp() + o,
        is_key(key),
    ensures
        p_block(ls, k, acc) is None || exists|w: Seq<char>|
            p_block(ls, k, acc) == p_block(ls, k + 1, acc.push((key, w))),
{
    let nx = ls[k];
    let inner = key + seq![':'] + (seq![' '] + o);
    assert(nx =~= seq![' ', ' '] + inner);
    lemma_key_chars(key);
    lemma_line_start(key, seq![' '] + o);
    let t = trim_end(inner);
    assert(seq![' ', ' '].last() == ' ');
    assert(t[0] == key[0]);
    // trailing white space goes from the inner part only
    assert(nx =~= seq![' '] + (seq![' '] + inner));
    assert(trim_end(nx) == seq![' ', ' '] + t) by {
        let kc = key + seq![':'];
        assert(inner =~= kc + (seq![' '] + o));
        assert(nx =~= (seq![' ', ' '] + kc) + (seq![' '] + o));
        assert((seq![' ', ' '] + kc).last() == ':');
        lemma_trim_end_keeps(seq![' ', ' '] + kc, seq![' '] + o);
        lemma_trim_end_keeps(kc, seq![' '] + o);
        assert(seq![' ', ' '] + kc + trim_end(seq![' '] + o) =~= seq![' ', ' '] + (kc + trim_end(seq![' '] + o)));
    }
    let tn = trim_end(nx);
    lemma_trim_start_skip(tn, 2);
    assert(tn.skip(2) =~= t);
    lemma_trim_start_len(t);
    assert(trim_start(tn) == t);
    assert(is_indented(nx));
    lemma_trim_start_skip(nx, 2);
    assert(nx.skip(2) =~= inner);
    lemma_trim_start_len(inner);
    assert(trim_start(nx) == inner);
    assert(inner =~= (key + seq![':']) + (seq![' '] + o));
    lemma_trim_end_keeps(key + seq![':'], seq![' '] + o);
    assert(!is_blank(nx));
    match scalar_spec(trim(trim_end(seq![' '] + o))) {
        Some(w) => {
            assert(p_block(ls, k, acc) == p_block(ls, k + 1, acc.push((key, w))));
        },
        None => {},
    }
}

/// The entry lines of a block, whatever their values: the block fails to
/// read, or it reads with the same keys in the same order.
pub(crate) proof fn lemma_block_lossy(
    ls: Seq<Seq<char>>,
    k: int,
    es: Seq<(Seq<char>, Seq<char>)>,
    t: int,
    acc: Seq<(Seq<char>, Seq<char>)>,
)
    requires
        0 <= k,
        0 <= t <= es.len(),
        k + es.len() == ls.len(),
        forall|j: int| 0 <= j < es.len() ==> is_key((#[trigger] es[j]).0),
        forall|u: int| 0 <= u < es.len() ==> ls[k + u] == #[trigger] entry_line(es[u]),
        pair_keys(acc) == pair_keys(es.take(t)),
    ensures
        p_block(ls, k + t, acc) matches Some((es2, e)) ==> pair_keys(es2) == pair_keys(es) && e == ls.len(),
    decreases es.len() - t,
{
    if t == es.len() {
        assert(es.take(t) =~= es);
    } else {
        assert(is_key(es[t].0));
        assert(ls[k + t] == entry_line(es[t]));
        assert(entry_line(es[t]) == seq![' ', ' '] + es[t].0 + colon_sp() + scalar_out(es[t].1));
        lemma_step_entry_lossy(ls, k + t, acc, es[t].0, scalar_out(es[t].1));
        if p_block(ls, k + t, acc) is Some {
            let w = choose|w: Seq<char>| p_block(ls, k + t, acc) == p_block(ls, k + t + 1, acc.push((es[t].0, w)));
            let acc2 = acc.push((es[t].0, w));
            assert(pair_keys(acc2) =~= pair_keys(es.take(t + 1))) by {
                assert(pair_keys(acc2) =~= pair_keys(acc).push(es[t].0));
                assert(es.take(t + 1) =~= es.take(t).push(es[t]));
                assert(pair_keys(es.take(t + 1)) =~= pair_keys(es.take(t)).push(es[t].0));
            }
            lemma_block_lossy(ls, k, es, t + 1, acc2);
        }
    }
}

/// Every key of a document is `[A-Za-z0-9_-]+` (values may be anything).
pub open spec fn keys_ok(d: YamlDocV) -> bool {
    &&& forall|i: int| 0 <= i < d.scalars.len() ==> is_key((#[trigger] d.scalars[i]).0)
    &&& forall|i: int| 0 <= i < d.arrays.len() ==> is_key((#[trigger] d.arrays[i]).0)
    &&& forall|i: int|
        0 <= i < d.maps.len() ==> is_key((#[trigger] d.maps[i]).0) && forall|j: int|
            0 <= j < d.maps[i].1.len() ==> is_key((#[trigger] d.maps[i].1[j]).0)
}

/// The lines of a written document with valid keys: each non-empty and free
/// of line breaks and `\r`, so that they are the lines read back; the
/// top-level ones start with their key.
pub proof fn lemma_doc_lines_plain(d: YamlDocV)
    requires
        keys_ok(d),
    ensures
        dump_doc(d) == joined_lines(doc_lines(d)),
        lines(dump_doc(d)) == doc_lines(d),
        !dump_doc(d).contains('\r'),
        forall|k: int|
            0 <= k < doc_lines(d).len() ==> (#[trigger] doc_lines(d)[k]).len() > 0 && !doc_lines(
                d,
            )[k].contains('\n') && !doc_lines(d)[k].contains('\r'),
{
    lemma_dump_doc(d);
    let sl = scalar_lines(d.scalars);
    let al = array_lines(d.arrays);
    let ml = map_lines(d.maps);
    let dl = doc_lines(d);
    assert forall|k: int| 0 <= k < sl.len() implies (#[trigger] sl[k]).len() > 0 && !sl[k].contains('\n')
        && !sl[k].contains('\r') by {
        let p = d.scalars[k];
        assert(is_key(p.0));
        lemma_scalar_out_plain(p.1);
        lemma_key_chars(p.0);
        lemma_concat_lacks(p.0, colon_sp(), '\n');
        lemma_concat_lacks(p.0, colon_sp(), '\r');
        lemma_concat_lacks(p.0 + colon_sp(), scalar_out(p.1), '\n');
        lemma_concat_lacks(p.0 + colon_sp(), scalar_out(p.1), '\r');
    }
    assert forall|k: int| 0 <= k < al.len() implies (#[trigger] al[k]).len() > 0 && !al[k].contains('\n')
        && !al[k].contains('\r') by {
        let p = d.arrays[k];
        assert(is_key(p.0));
        lemma_array_text(p.1);
        lemma_kv_shape(p.0, array_text(p.1));
    }
    lemma_map_lines_plain_keys(d.maps);
    assert forall|k: int| 0 <= k < dl.len() implies (#[trigger] dl[k]).len() > 0 && !dl[k].contains('\n')
        && !dl[k].contains('\r') by {
        if k < sl.len() {
            assert(dl[k] == sl[k]);
        } else if k < sl.len() + al.len() {
            assert(dl[k] == al[k - sl.len()]);
        } else {
            assert(dl[k] == ml[k - sl.len() - al.len()]);
        }
    }
    assert forall|k: int| 0 <= k < dl.len() implies clean_line(#[trigger] dl[k]) by {
        assert(dl[k].last() == dl[k][dl[k].len() - 1]);
    }
    lemma_lines_of_joined(dl);
    lemma_joined_plain(dl);
}

proof fn lemma_map_lines_plain_keys(m: Seq<(Seq<char>, Seq<(Seq<char>, Seq<char>)>)>)
    requires
        forall|i: int|
            0 <= i < m.len() ==> is_key((#[trigger] m[i]).0) && forall|j: int|
                0 <= j < m[i].1.len() ==> is_key((#[trigger] m[i].1[j]).0),
    ensures
        forall|k: int|
            0 <= k < map_lines(m).len() ==> (#[trigger] map_lines(m)[k]).len() > 0 && !map_lines(
                m,
            )[k].contains('\n') && !map_lines(m)[k].contains('\r'),
    decreases m.len(),
{
    if m.len() > 0 {
        lemma_map_lines_plain_keys(m.drop_last());
        let pre = map_lines(m.drop_last());
        let key = m.last().0;
        let es = m.last().1;
        assert(is_key(m[m.len() - 1].0));
        lemma_key_chars(key);
        let h = header_line(key);
        assert(!seq![':'].contains('\n') && !seq![':'].contains('\r')) by {
            assert(seq![':'][0] == ':');
        }
        lemma_concat_lacks(key, seq![':'], '\n');
        lemma_concat_lacks(key, seq![':'], '\r');
        let el = entry_lines(es);
        assert forall|k: int| 0 <= k < el.len() implies (#[trigger] el[k]).len() > 0 && !el[k].contains('\n')
            && !el[k].contains('\r') by {
            let p = es[k];
            assert(is_key(m[m.len() - 1].1[k].0));
            lemma_key_chars(p.0);
            lemma_scalar_out_plain(p.1);
            let inner = p.0 + colon_sp() + scalar_out(p.1);
            lemma_concat_lacks(p.0, colon_sp(), '\n');
            lemma_concat_lacks(p.0, colon_sp(), '\r');
            lemma_concat_lacks(p.0 + colon_sp(), scalar_out(p.1), '\n');
            lemma_concat_lacks(p.0 + colon_sp(), scalar_out(p.1), '\r');
            assert(el[k] =~= seq![' ', ' '] + inner);
            assert(!seq![' ', ' '].contains('\n') && !seq![' ', ' '].contains('\r')) by {
                assert(seq![' ', ' '][0] == ' ' && seq![' ', ' '][1] == ' ');
            }
            lemma_concat_lacks(seq![' ', ' '], inner, '\n');
            lemma_concat_lacks(seq![' ', ' '], inner, '\r');
        }
        let ml = map_lines(m);
        assert(ml == pre + seq![h] + el);
        assert forall|k: int| 0 <= k < ml.len() implies (#[trigger] ml[k]).len() > 0 && !ml[k].contains('\n')
            && !ml[k].contains('\r') by {
            if k < pre.len() {
                assert(ml[k] == pre[k]);
            } else if k == pre.len() {
                assert(ml[k] == h);
            } else {
                assert(ml[k] == el[k - pre.len() - 1]);
            }
        }
    }
}

/// Every entry a block reads has a valid key.
pub proof fn lemma_p_block_keys(ls: Seq<Seq<char>>, k: int, es: Seq<(Seq<char>, Seq<char>)>)
    requires
        forall|j: int| 0 <= j < es.len() ==> is_key((#[trigger] es[j]).0),
    ensures
        p_block(ls, k, es) matches Some((es2, _)) ==> forall|j: int| 0 <= j < es2.len() ==> is_key((#[trigger] es2[j]).0),
    decreases ls.len() - k,
{
    if 0 <= k < ls.len() {
        let nx = ls[k];
        if is_indented(nx) && !is_blank(nx) {
            let t = trim_start(trim_end(nx));
            if t.len() > 0 && t[0] == '#' {
                lemma_p_block_keys(ls, k + 1, es);
            } else {
                match split_key_spec(t) {
                    None => {},
                    Some((k2, r2)) => match scalar_spec(trim(r2)) {
                        None => {},
                        Some(v) => {
                            let es3 = es.push((k2, v));
                            assert forall|j: int| 0 <= j < es3.len() implies is_key((#[trigger] es3[j]).0) by {
                                if j < es.len() {
                                    assert(es3[j] == es[j]);
                                }
                            }
                            lemma_p_block_keys(ls, k + 1, es3);
                        },
                    },
                }
            }
        } else if is_blank(nx) {
            lemma_p_block_keys(ls, k + 1, es);
        }
    }
}

/// Every block a document reads has entries with valid keys.
pub proof fn lemma_p_lines_keys(ls: Seq<Seq<char>>, idx: int, d: YamlDocV)
    requires
        forall|i: int, j: int|
            0 <= i < d.maps.len() && 0 <= j < d.maps[i].1.len() ==> is_key((#[trigger] d.maps[i].1[j]).0),
    ensures
        p_lines(ls, idx, d) matches Some(d2) ==> forall|i: int, j: int|
            0 <= i < d2.maps.len() && 0 <= j < d2.maps[i].1.len() ==> is_key((#[trigger] d2.maps[i].1[j]).0),
    decreases ls.len() - idx,
{
    if 0 <= idx < ls.len() {
        let line = trim_end(ls[idx]);
        if is_blank(line) || is_comment(line) {
            lemma_p_lines_keys(ls, idx + 1, d);
        } else if !(line.len() > 0 && line[0] == ' ') {
            match split_key_spec(line) {
                None => {},
                Some((key, rest)) => {
                    let r = trim(rest);
                    if r.len() == 0 {
                        lemma_p_block_end(ls, idx + 1, seq![]);
                        lemma_p_block_keys(ls, idx + 1, seq![]);
                        match p_block(ls, idx + 1, seq![]) {
                            None => {},
                            Some((es, nxt)) => {
                                let d2 = YamlDocV { maps: d.maps.push((key, es)), ..d };
                                assert forall|i: int, j: int|
                                    0 <= i < d2.maps.len() && 0 <= j < d2.maps[i].1.len() implies is_key(
                                    (#[trigger] d2.maps[i].1[j]).0,
                                ) by {
                                    if i < d.maps.len() {
                                        assert(d2.maps[i] == d.maps[i]);
                                    }
                                }
                                lemma_p_lines_keys(ls, nxt, d2);
                            },
                        }
                    } else if r[0] == '[' {
                        match array_spec(r) {
                            None => {},
                            Some(items) => lemma_p_lines_keys(
                                ls,
                                idx + 1,
                                YamlDocV { arrays: d.arrays.push((key, items)), ..d },
                            ),
                        }
                    } else {
                        match scalar_spec(r) {
                            None => {},
                            Some(v) => lemma_p_lines_keys(
                                ls,
                                idx + 1,
                                YamlDocV { scalars: d.scalars.push((key, v)), ..d },
                            ),
                        }
                    }
                },
            }
        }
    }
}

/// No carriage return in `s`.
pub open spec fn no_cr(s: Seq<char>) -> bool {
    !s.contains('\r')
}

pub proof fn lemma_no_cr_concat(a: Seq<char>, b: Seq<char>)
    requires
        no_cr(a),
        no_cr(b),
    ensures
        no_cr(a + b),
{
    if (a + b).contains('\r') {
        let i = choose|i: int| 0 <= i < (a + b).len() && (a + b)[i] == '\r';
        if i < a.len() {
            assert(a[i] == '\r');
        } else {
            assert(b[i - a.len()] == '\r');
        }
    }
}

proof fn lemma_quote_no_cr(x: Seq<char>)
    ensures
        no_cr(quote(x)),
{
    crate::json::lemma_esc_clean(x);
    let e = crate::json::esc_all(x);
    assert(no_cr(e)) by {
        if e.contains('\r') {
            let i = choose|i: int| 0 <= i < e.len() && e[i] == '\r';
        }
    }
    assert(no_cr(seq!['"'])) by {
        if seq!['"'].contains('\r') {
            let i = choose|i: int| 0 <= i < 1 && seq!['"'][i] == '\r';
        }
    }
    lemma_no_cr_concat(seq!['"'], e);
    lemma_no_cr_concat(seq!['"'] + e, seq!['"']);
}

proof fn lemma_scalar_out_no_cr(v: Seq<char>)
    ensures
        no_cr(scalar_out(v)),
{
    if needs_quotes(v) {
        lemma_quote_no_cr(v);
    }
}

proof fn lemma_plain_no_cr(t: Seq<char>)
    requires
        forall|i: int| 0 <= i < t.len() ==> #[trigger] t[i] != '\r',
    ensures
        no_cr(t),
{
    if t.contains('\r') {
        let i = choose|i: int| 0 <= i < t.len() && t[i] == '\r';
    }
}

proof fn lemma_scalars_no_cr(s: Seq<(Seq<char>, Seq<char>)>)
    requires
        forall|i: int| 0 <= i < s.len() ==> no_cr((#[trigger] s[i]).0),
    ensures
        no_cr(dump_scalars(s)),
    decreases s.len(),
{
    if s.len() == 0 {
        lemma_plain_no_cr(seq![]);
    } else {
        let pre = s.drop_last();
        assert forall|i: int| 0 <= i < pre.len() implies no_cr((#[trigger] pre[i]).0) by {
            assert(pre[i] == s[i]);
        }
        lemma_scalars_no_cr(pre);
        assert(no_cr(s.last().0)) by {
            assert(s.last() == s[s.len() - 1]);
        }
        lemma_plain_no_cr(colon_sp());
        lemma_plain_no_cr(seq!['\n']);
        lemma_scalar_out_no_cr(s.last().1);
        lemma_no_cr_concat(dump_scalars(pre), s.last().0);
        lemma_no_cr_concat(dump_scalars(pre) + s.last().0, colon_sp());
        lemma_no_cr_concat(dump_scalars(pre) + s.last().0 + colon_sp(), scalar_out(s.last().1));
        lemma_no_cr_concat(dump_scalars(pre) + s.last().0 + colon_sp() + scalar_out(s.last().1), seq!['\n']);
    }
}

proof fn lemma_join_quoted_no_cr(items: Seq<Seq<char>>)
    ensures
        no_cr(join_quoted(items)),
    decreases items.len(),
{
    if items.len() == 0 {
        lemma_plain_no_cr(seq![]);
    } else {
        lemma_join_quoted_no_cr(items.drop_last());
        let sep = if items.len() > 1 { seq![',', ' '] } else { Seq::<char>::empty() };
        lemma_plain_no_cr(sep);
        lemma_quote_no_cr(items.last());
        lemma_no_cr_concat(join_quoted(items.drop_last()), sep);
        lemma_no_cr_concat(join_quoted(items.drop_last()) + sep, quote(items.last()));
    }
}

proof fn lemma_arrays_no_cr(a: Seq<(Seq<char>, Seq<Seq<char>>)>)
    requires
        forall|i: int| 0 <= i < a.len() ==> no_cr((#[trigger] a[i]).0),
    ensures
        no_cr(dump_arrays(a)),
    decreases a.len(),
{
    if a.len() == 0 {
        lemma_plain_no_cr(seq![]);
    } else {
        let pre = a.drop_last();
        assert forall|i: int| 0 <= i < pre.len() implies no_cr((#[trigger] pre[i]).0) by {
            assert(pre[i] == a[i]);
        }
        lemma_arrays_no_cr(pre);
        assert(no_cr(a.last().0)) by {
            assert(a.last() == a[a.len() - 1]);
        }
        lemma_plain_no_cr(seq![':', ' ', '[']);
        lemma_plain_no_cr(seq![']', '\n']);
        lemma_join_quoted_no_cr(a.last().1);
        lemma_no_cr_concat(dump_arrays(pre), a.last().0);
        lemma_no_cr_concat(dump_arrays(pre) + a.last().0, seq![':', ' ', '[']);
        lemma_no_cr_concat(dump_arrays(pre) + a.last().0 + seq![':', ' ', '['], join_quoted(a.last().1));
        lemma_no_cr_concat(
            dump_arrays(pre) + a.last().0 + seq![':', ' ', '['] + join_quoted(a.last().1),
            seq![']', '\n'],
        );
    }
}

/// A document whose keys hold no carriage return is written without one
/// (scalars that would need one are quoted and escaped).
pub proof fn lemma_dump_doc_no_cr(d: YamlDocV)
    requires
        forall|i: int| 0 <= i < d.scalars.len() ==> no_cr((#[trigger] d.scalars[i]).0),
        forall|i: int| 0 <= i < d.arrays.len() ==> no_cr((#[trigger] d.arrays[i]).0),
        d.maps.len() == 0,
    ensures
        no_cr(dump_doc(d)),
{
    lemma_scalars_no_cr(d.scalars);
    lemma_arrays_no_cr(d.arrays);
    assert(dump_maps(d.maps) =~= Seq::<char>::empty());
    lemma_plain_no_cr(dump_maps(d.maps));
    lemma_no_cr_concat(dump_scalars(d.scalars), dump_arrays(d.arrays));
    lemma_no_cr_concat(dump_scalars(d.scalars) + dump_arrays(d.arrays), dump_maps(d.maps));
}

} // verus!
