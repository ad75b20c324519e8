//! Minimal JSON value, parser and serializer.
//!
//! Objects keep their members sorted by key (code-point order) without
//! repeated keys, as an ordered map does. Numbers are kept as the literal
//! text they were read from.

use vstd::prelude::*;
use crate::text::{chars_of, copy_string, extend_str, push_char, str_eq, string_of};
use vstd::pervasive::VecAdditionalExecFns;
use crate::util::{dec, hex, push_dec, push_hex};

verus! {

/// A JSON value.
#[derive(Debug, PartialEq)]
pub enum Json {
    Null,
    Bool(bool),
    /// a number, as its literal text
    Num(String),
    Str(String),
    Arr(Vec<Json>),
    /// members sorted by key, no key twice
    Obj(Vec<(String, Json)>),
}

/// The mathematical value of a JSON document.
pub enum JsonV {
    Null,
    Bool(bool),
    Num(Seq<char>),
    Str(Seq<char>),
    Arr(Seq<JsonV>),
    Obj(Seq<(Seq<char>, JsonV)>),
}

pub open spec fn jv(j: Json) -> JsonV
    decreases j, 0nat,
{
    match j {
        Json::Null => JsonV::Null,
        Json::Bool(b) => JsonV::Bool(b),
        Json::Num(n) => JsonV::Num(n@),
        Json::Str(s) => JsonV::Str(s@),
        Json::Arr(v) => JsonV::Arr(jv_seq(v@)),
        Json::Obj(m) => JsonV::Obj(jv_pairs(m@)),
    }
}

pub open spec fn jv_seq(s: Seq<Json>) -> Seq<JsonV>
    decreases s, 1nat,
{
    if s.len() == 0 {
        seq![]
    } else {
        jv_seq(s.drop_last()).push(jv(s.last()))
    }
}

pub open spec fn jv_pairs(s: Seq<(String, Json)>) -> Seq<(Seq<char>, JsonV)>
    decreases s, 1nat,
{
    if s.len() == 0 {
        seq![]
    } else {
        jv_pairs(s.drop_last()).push((s.last().0@, jv(s.last().1)))
    }
}


pub proof fn lemma_jv_seq(s: Seq<Json>)
    ensures
        jv_seq(s).len() == s.len(),
        forall|i: int| 0 <= i < s.len() ==> #[trigger] jv_seq(s)[i] == jv(s[i]),
    decreases s.len(),
{
    if s.len() > 0 {
        lemma_jv_seq(s.drop_last());
    }
}

pub proof fn lemma_jv_pairs(s: Seq<(String, Json)>)
    ensures
        jv_pairs(s).len() == s.len(),
        forall|i: int|
            0 <= i < s.len() ==> #[trigger] jv_pairs(s)[i] == (s[i].0@, jv(s[i].1)),
    decreases s.len(),
{
    if s.len() > 0 {
        lemma_jv_pairs(s.drop_last());
    }
}

/// Lower-case hex digit.
pub open spec fn hex_digit(d: int) -> char {
    seq!['0', '1', '2', '3', '4', '5', '6', '7', '8', '9', 'a', 'b', 'c', 'd', 'e', 'f'][d]
}

/// How one char is written inside a JSON string.
pub open spec fn esc_char(c: char) -> Seq<char> {
    if c == '"' {
        seq!['\\', '"']
    } else if c == '\\' {
        seq!['\\', '\\']
    } else if c == '\n' {
        seq!['\\', 'n']
    } else if c == '\r' {
        seq!['\\', 'r']
    } else if c == '\t' {
        seq!['\\', 't']
    } else if (c as u32) < 0x20 {
        seq!['\\', 'u', '0', '0', hex_digit(((c as u32) / 16) as int), hex_digit(((c as u32) % 16) as int)]
    } else {
        seq![c]
    }
}

/// The escaped chars of a string.
pub open spec fn esc_all(s: Seq<char>) -> Seq<char>
    decreases s.len(),
{
    if s.len() == 0 {
        seq![]
    } else {
        esc_all(s.drop_last()) + esc_char(s.last())
    }
}

/// A string as a JSON string literal.
pub open spec fn quote(s: Seq<char>) -> Seq<char> {
    seq!['"'] + esc_all(s) + seq!['"']
}

fn hex_digit_exec(d: u32) -> (c: char)
    requires
        d < 16,
    ensures
        c == hex_digit(d as int),
{
    let digits: Vec<char> = vec!['0', '1', '2', '3', '4', '5', '6', '7', '8', '9', 'a', 'b', 'c', 'd', 'e', 'f'];
    assert(digits@ =~= seq!['0', '1', '2', '3', '4', '5', '6', '7', '8', '9', 'a', 'b', 'c', 'd', 'e', 'f']);
    digits[d as usize]
}

/// Appends the escaped form of one char.
fn push_esc(out: &mut Vec<char>, c: char)
    ensures
        final(out)@ == old(out)@ + esc_char(c),
{
    if c == '"' {
        out.push('\\');
        out.push('"');
    } else if c == '\\' {
        out.push('\\');
        out.push('\\');
    } else if c == '\n' {
        out.push('\\');
        out.push('n');
    } else if c == '\r' {
        out.push('\\');
        out.push('r');
    } else if c == '\t' {
        out.push('\\');
        out.push('t');
    } else if (c as u32) < 0x20 {
        let v = c as u32;
        out.push('\\');
        out.push('u');
        out.push('0');
        out.push('0');
        out.push(hex_digit_exec(v / 16));
        out.push(hex_digit_exec(v % 16));
    } else {
        out.push(c);
    }
    assert(final(out)@ =~= old(out)@ + esc_char(c));
}

/// Appends a string as a JSON string literal.
pub fn push_quoted(out: &mut Vec<char>, s: &[char])
    ensures
        final(out)@ == old(out)@ + quote(s@),
{
    out.push('"');
    let n = s.len();
    let mut i: usize = 0;
    let ghost start = old(out)@;
    while i < n
        invariant
            n == s@.len(),
            i <= n,
            out@ == start + seq!['"'] + esc_all(s@.take(i as int)),
        decreases n - i,
    {
        push_esc(out, s[i]);
        assert(s@.take(i + 1).drop_last() =~= s@.take(i as int));
        assert(out@ =~= start + seq!['"'] + esc_all(s@.take(i + 1)));
        i = i + 1;
    }
    out.push('"');
    assert(s@.take(n as int) =~= s@);
    assert(out@ =~= start + quote(s@));
}

/// Appends `s` to `out` as a JSON string literal: `"` and `\` are escaped,
/// newline, carriage return and tab become `\n`, `\r`, `\t`, other control
/// chars below U+0020 become `\u00xx`.
pub fn write_json_string(out: &mut String, s: &str)
    ensures
        final(out)@ == old(out)@ + quote(s@),
{
    let cs = chars_of(s);
    let mut buf: Vec<char> = Vec::new();
    push_quoted(&mut buf, cs.as_slice());
    let n = buf.len();
    let mut i: usize = 0;
    while i < n
        invariant
            n == buf@.len(),
            i <= n,
            out@ == old(out)@ + buf@.take(i as int),
        decreases n - i,
    {
        push_char(out, buf[i]);
        assert(buf@.take(i + 1) =~= buf@.take(i as int).push(buf@[i as int]));
        i = i + 1;
    }
    assert(buf@.take(n as int) =~= buf@);
}

/// `k` spaces.
pub open spec fn spaces(k: nat) -> Seq<char> {
    Seq::new(k, |i: int| ' ')
}

/// Line break and indentation before an item at `depth` (pretty form only).
pub open spec fn nl(indent: Option<nat>, depth: nat) -> Seq<char> {
    match indent {
        Some(n) => seq!['\n'] + spaces((n as nat) * depth),
        None => seq![],
    }
}

pub open spec fn lit_null() -> Seq<char> {
    seq!['n', 'u', 'l', 'l']
}

pub open spec fn lit_true() -> Seq<char> {
    seq!['t', 'r', 'u', 'e']
}

pub open spec fn lit_false() -> Seq<char> {
    seq!['f', 'a', 'l', 's', 'e']
}

/// The text of a value: compact (`indent` None) or pretty with `indent`
/// spaces per level, starting at nesting `depth`.
pub open spec fn dump_v(v: JsonV, indent: Option<nat>, depth: nat) -> Seq<char>
    decreases v, 0nat,
{
    match v {
        JsonV::Null => lit_null(),
        JsonV::Bool(b) => if b {
            lit_true()
        } else {
            lit_false()
        },
        JsonV::Num(t) => t,
        JsonV::Str(s) => quote(s),
        JsonV::Arr(a) => if a.len() == 0 {
            seq!['[', ']']
        } else {
            seq!['['] + dump_items(a, indent, depth + 1) + nl(indent, depth) + seq![']']
        },
        JsonV::Obj(m) => if m.len() == 0 {
            seq!['{', '}']
        } else {
            seq!['{'] + dump_members(m, indent, depth + 1) + nl(indent, depth) + seq!['}']
        },
    }
}

/// Array items, each after a separator and its line break.
pub open spec fn dump_items(a: Seq<JsonV>, indent: Option<nat>, depth: nat) -> Seq<char>
    decreases a, 1nat,
{
    if a.len() == 0 {
        seq![]
    } else {
        dump_items(a.drop_last(), indent, depth) + (if a.len() > 1 {
            seq![',']
        } else {
            seq![]
        }) + nl(indent, depth) + dump_v(a.last(), indent, depth)
    }
}

/// Object members `"key":value` (`"key": value` when pretty).
pub open spec fn dump_members(m: Seq<(Seq<char>, JsonV)>, indent: Option<nat>, depth: nat) -> Seq<
    char,
>
    decreases m, 1nat,
{
    if m.len() == 0 {
        seq![]
    } else {
        dump_members(m.drop_last(), indent, depth) + (if m.len() > 1 {
            seq![',']
        } else {
            seq![]
        }) + nl(indent, depth) + quote(m.last().0) + seq![':'] + (if indent is Some {
            seq![' ']
        } else {
            seq![]
        }) + dump_v(m.last().1, indent, depth)
    }
}

pub open spec fn opt_nat(o: Option<usize>) -> Option<nat> {
    match o {
        Some(n) => Some(n as nat),
        None => None,
    }
}

/// Appends a line break and the indentation `pad` when pretty-printing.
fn newline_indent(out: &mut Vec<char>, indent: Option<usize>, pad: &Vec<char>)
    ensures
        final(out)@ == old(out)@ + (if indent is Some {
            seq!['\n'] + pad@
        } else {
            seq![]
        }),
{
    if indent.is_some() {
        out.push('\n');
        crate::text::extend_chars(out, pad.as_slice());
    }
}

/// `pad` followed by `n` more spaces.
fn deeper(pad: &Vec<char>, n: usize) -> (r: Vec<char>)
    ensures
        r@ == pad@ + spaces(n as nat),
{
    let mut r = pad.clone();
    assert(r@ =~= pad@);
    let mut k: usize = 0;
    while k < n
        invariant
            k <= n,
            r@ == pad@ + spaces(k as nat),
        decreases n - k,
    {
        r.push(' ');
        assert(r@ =~= pad@ + spaces((k + 1) as nat));
        k = k + 1;
    }
    r
}

proof fn lemma_spaces_add(a: nat, b: nat)
    ensures
        spaces(a) + spaces(b) == spaces(a + b),
{
    assert(spaces(a) + spaces(b) =~= spaces(a + b));
}

proof fn lemma_spaces_step(n: nat, depth: nat)
    ensures
        spaces(n * depth) + spaces(n) == spaces((n as nat) * (depth + 1)),
{
    assert(n * (depth + 1) == n * depth + n) by (nonlinear_arith);
    lemma_spaces_add(n * depth, n);
}

impl Json {
    /// Appends the text of this value at nesting `depth`, whose indentation
    /// `pad` is, when pretty, `indent * depth` spaces.
    fn write(&self, out: &mut Vec<char>, indent: Option<usize>, pad: &Vec<char>, Ghost(depth): Ghost<nat>)
        requires
            indent matches Some(n) ==> pad@ == spaces((n as nat) * depth),
        ensures
            final(out)@ == old(out)@ + dump_v(jv(*self), opt_nat(indent), depth),
        decreases self,
    {
        let ghost start = old(out)@;
        let ghost ind = opt_nat(indent);
        match self {
            Json::Null => {
                out.push('n');
                out.push('u');
                out.push('l');
                out.push('l');
                assert(out@ =~= start + lit_null());
            },
            Json::Bool(b) => {
                if *b {
                    out.push('t');
                    out.push('r');
                    out.push('u');
                    out.push('e');
                    assert(out@ =~= start + lit_true());
                } else {
                    out.push('f');
                    out.push('a');
                    out.push('l');
                    out.push('s');
                    out.push('e');
                    assert(out@ =~= start + lit_false());
                }
            },
            Json::Num(t) => {
                let cs = chars_of(t.as_str());
                crate::text::extend_chars(out, cs.as_slice());
            },
            Json::Str(s) => {
                let cs = chars_of(s.as_str());
                push_quoted(out, cs.as_slice());
            },
            Json::Arr(a) => {
                if a.len() == 0 {
                    out.push('[');
                    out.push(']');
                    assert(out@ =~= start + seq!['[', ']']);
                    return;
                }
                let inner = match indent {
                    Some(n) => deeper(pad, n),
                    None => pad.clone(),
                };
                proof {
                    if let Some(n) = indent {
                        lemma_spaces_step(n as nat, depth);
                    }
                    lemma_jv_seq(a@);
                }
                out.push('[');
                let len = a.len();
                let mut k: usize = 0;
                while k < len
                    invariant
                        len == a@.len(),
                        k <= len,
                        *self == Json::Arr(*a),
                        indent matches Some(n) ==> inner@ == spaces((n as nat) * (depth + 1)),
                        ind == opt_nat(indent),
                        out@ == start + seq!['['] + dump_items(jv_seq(a@).take(k as int), ind, depth + 1),
                        jv_seq(a@).len() == a@.len(),
                        forall|i: int| 0 <= i < a@.len() ==> #[trigger] jv_seq(a@)[i] == jv(a@[i]),
                    decreases len - k,
                {
                    let ghost before = out@;
                    if k > 0 {
                        out.push(',');
                    }
                    newline_indent(out, indent, &inner);
                    proof {
                        assert(decreases_to!(*self => (*self)->Arr_0));
                        assert(decreases_to!(*a => a@));
                        assert(decreases_to!(a@ => a@[k as int]));
                        assert(decreases_to!(*self => a@[k as int]));
                    }
                    a[k].write(out, indent, &inner, Ghost(depth + 1));
                    proof {
                        let t = jv_seq(a@).take(k + 1);
                        assert(t.drop_last() =~= jv_seq(a@).take(k as int));
                        assert(t.last() == jv(a@[k as int]));
                        assert(out@ =~= start + seq!['['] + dump_items(t, ind, depth + 1));
                    }
                    k = k + 1;
                }
                newline_indent(out, indent, pad);
                out.push(']');
                proof {
                    assert(jv_seq(a@).take(len as int) =~= jv_seq(a@));
                    assert(out@ =~= start + dump_v(jv(*self), ind, depth));
                }
            },
            Json::Obj(m) => {
                if m.len() == 0 {
                    out.push('{');
                    out.push('}');
                    assert(out@ =~= start + seq!['{', '}']);
                    return;
                }
                let inner = match indent {
                    Some(n) => deeper(pad, n),
                    None => pad.clone(),
                };
                proof {
                    if let Some(n) = indent {
                        lemma_spaces_step(n as nat, depth);
                    }
                    lemma_jv_pairs(m@);
                }
                out.push('{');
                let len = m.len();
                let mut k: usize = 0;
                while k < len
                    invariant
                        len == m@.len(),
                        k <= len,
                        *self == Json::Obj(*m),
                        indent matches Some(n) ==> inner@ == spaces((n as nat) * (depth + 1)),
                        ind == opt_nat(indent),
                        out@ == start + seq!['{'] + dump_members(jv_pairs(m@).take(k as int), ind, depth + 1),
                        jv_pairs(m@).len() == m@.len(),
                        forall|i: int| 0 <= i < m@.len() ==> #[trigger] jv_pairs(m@)[i] == (m@[i].0@, jv(m@[i].1)),
                    decreases len - k,
                {
                    if k > 0 {
                        out.push(',');
                    }
                    newline_indent(out, indent, &inner);
                    let key = chars_of(m[k].0.as_str());
                    push_quoted(out, key.as_slice());
                    out.push(':');
                    if indent.is_some() {
                        out.push(' ');
                    }
                    proof {
                        assert(decreases_to!(*self => (*self)->Obj_0));
                        assert(decreases_to!(*m => m@));
                        assert(decreases_to!(m@ => m@[k as int]));
                        assert(decreases_to!(m@[k as int] => m@[k as int].1));
                        assert(decreases_to!(*self => m@[k as int].1));
                    }
                    m[k].1.write(out, indent, &inner, Ghost(depth + 1));
                    proof {
                        let t = jv_pairs(m@).take(k + 1);
                        assert(t.drop_last() =~= jv_pairs(m@).take(k as int));
                        assert(t.last() == (m@[k as int].0@, jv(m@[k as int].1)));
                        assert(out@ =~= start + seq!['{'] + dump_members(t, ind, depth + 1));
                    }
                    k = k + 1;
                }
                newline_indent(out, indent, pad);
                out.push('}');
                proof {
                    assert(jv_pairs(m@).take(len as int) =~= jv_pairs(m@));
                    assert(out@ =~= start + dump_v(jv(*self), ind, depth));
                }
            },
        }
    }

    /// Compact serialization.
    pub fn dump(&self) -> (r: String)
        ensures
            r@ == dump_v(jv(*self), None, 0),
    {
        let mut out: Vec<char> = Vec::new();
        let pad: Vec<char> = Vec::new();
        self.write(&mut out, None, &pad, Ghost(0));
        crate::text::string_of(out.as_slice())
    }

    /// Pretty serialization with 2-space indent.
    pub fn pretty(&self) -> (r: String)
        ensures
            r@ == dump_v(jv(*self), Some(2), 0),
    {
        let mut out: Vec<char> = Vec::new();
        let pad: Vec<char> = Vec::new();
        assert(pad@ =~= spaces(2 * 0));
        self.write(&mut out, Some(2), &pad, Ghost(0));
        crate::text::string_of(out.as_slice())
    }
}


/// A copy of a value.
pub fn copy_json(j: &Json) -> (r: Json)
    ensures
        jv(r) == jv(*j),
    decreases j,
{
    match j {
        Json::Null => Json::Null,
        Json::Bool(b) => Json::Bool(*b),
        Json::Num(t) => Json::Num(copy_string(t.as_str())),
        Json::Str(t) => Json::Str(copy_string(t.as_str())),
        Json::Arr(a) => {
            proof {
                lemma_jv_seq(a@);
            }
            let mut out: Vec<Json> = Vec::new();
            let len = a.len();
            let mut k: usize = 0;
            while k < len
                invariant
                    len == a@.len(),
                    k <= len,
                    *j == Json::Arr(*a),
                    jv_seq(a@).len() == a@.len(),
                    forall|i: int| 0 <= i < a@.len() ==> #[trigger] jv_seq(a@)[i] == jv(a@[i]),
                    jv_seq(out@) == jv_seq(a@).take(k as int),
                decreases len - k,
            {
                proof {
                    assert(decreases_to!(*j => (*j)->Arr_0));
                    assert(decreases_to!(*a => a@));
                    assert(decreases_to!(a@ => a@[k as int]));
                    assert(decreases_to!(*j => a@[k as int]));
                }
                let ghost before = out@;
                out.push(copy_json(&a[k]));
                assert(out@.drop_last() =~= before);
                assert(jv_seq(a@).take(k + 1) =~= jv_seq(a@).take(k as int).push(jv(a@[k as int])));
                k = k + 1;
            }
            assert(jv_seq(a@).take(len as int) =~= jv_seq(a@));
            Json::Arr(out)
        },
        Json::Obj(m) => {
            proof {
                lemma_jv_pairs(m@);
            }
            let mut out: Vec<(String, Json)> = Vec::new();
            let len = m.len();
            let mut k: usize = 0;
            while k < len
                invariant
                    len == m@.len(),
                    k <= len,
                    *j == Json::Obj(*m),
                    jv_pairs(m@).len() == m@.len(),
                    forall|i: int| 0 <= i < m@.len() ==> #[trigger] jv_pairs(m@)[i] == (m@[i].0@, jv(m@[i].1)),
                    jv_pairs(out@) == jv_pairs(m@).take(k as int),
                decreases len - k,
            {
                proof {
                    assert(decreases_to!(*j => (*j)->Obj_0));
                    assert(decreases_to!(*m => m@));
                    assert(decreases_to!(m@ => m@[k as int]));
                    assert(decreases_to!(m@[k as int] => m@[k as int].1));
                    assert(decreases_to!(*j => m@[k as int].1));
                }
                let ghost before = out@;
                let v = copy_json(&m[k].1);
                out.push((copy_string(m[k].0.as_str()), v));
                assert(out@.drop_last() =~= before);
                assert(jv_pairs(m@).take(k + 1) =~= jv_pairs(m@).take(k as int).push((m@[k as int].0@, jv(m@[k as int].1))));
                k = k + 1;
            }
            assert(jv_pairs(m@).take(len as int) =~= jv_pairs(m@));
            Json::Obj(out)
        },
    }
}


// ---------- parsing ----------

/// JSON insignificant whitespace.
pub open spec fn is_jws(c: char) -> bool {
    c == ' ' || c == '\t' || c == '\n' || c == '\r'
}

/// The first position at or after `i` that is not whitespace.
pub open spec fn skip_ws(s: Seq<char>, i: int) -> int
    decreases s.len() - i,
{
    if 0 <= i < s.len() && is_jws(s[i]) {
        skip_ws(s, i + 1)
    } else {
        i
    }
}

pub open spec fn is_digit(c: char) -> bool {
    '0' <= c && c <= '9'
}

/// Value of a hex digit (either case).
pub open spec fn hex_val(c: char) -> Option<int> {
    if '0' <= c && c <= '9' {
        Some(c as int - '0' as int)
    } else if 'a' <= c && c <= 'f' {
        Some(c as int - 'a' as int + 10)
    } else if 'A' <= c && c <= 'F' {
        Some(c as int - 'A' as int + 10)
    } else {
        None
    }
}

/// The four chars after `\u` at `i`, read as base-16 (std's `from_str_radix`,
/// which also takes a leading `+`).
pub open spec fn hex4(s: Seq<char>, i: int) -> Option<int> {
    if i < 0 || i + 4 > s.len() {
        None
    } else if hex_val(s[i]) is Some && hex_val(s[i + 1]) is Some && hex_val(s[i + 2]) is Some
        && hex_val(s[i + 3]) is Some {
        Some(
            ((hex_val(s[i])->0 * 16 + hex_val(s[i + 1])->0) * 16 + hex_val(s[i + 2])->0) * 16
                + hex_val(s[i + 3])->0,
        )
    } else if s[i] == '+' && hex_val(s[i + 1]) is Some && hex_val(s[i + 2]) is Some && hex_val(
        s[i + 3],
    ) is Some {
        Some((hex_val(s[i + 1])->0 * 16 + hex_val(s[i + 2])->0) * 16 + hex_val(s[i + 3])->0)
    } else {
        None
    }
}

/// A Unicode scalar value.
pub open spec fn is_scalar(v: int) -> bool {
    (0 <= v < 0xD800) || (0xE000 <= v <= 0x10FFFF)
}

/// The char a simple escape `\e` stands for.
pub open spec fn simple_escape(e: char) -> Option<char> {
    if e == '"' {
        Some('"')
    } else if e == '\\' {
        Some('\\')
    } else if e == '/' {
        Some('/')
    } else if e == 'b' {
        Some('\u{8}')
    } else if e == 'f' {
        Some('\u{c}')
    } else if e == 'n' {
        Some('\n')
    } else if e == 'r' {
        Some('\r')
    } else if e == 't' {
        Some('\t')
    } else {
        None
    }
}

/// String contents from `i` (after the opening quote) to the closing quote:
/// the text read and the position after the closing quote.
pub open spec fn p_str(s: Seq<char>, i: int, acc: Seq<char>) -> Option<(Seq<char>, int)>
    decreases s.len() - i,
{
    if i < 0 || i >= s.len() {
        None
    } else if s[i] == '"' {
        Some((acc, i + 1))
    } else if s[i] == '\\' {
        if i + 1 >= s.len() {
            None
        } else if simple_escape(s[i + 1]) is Some {
            p_str(s, i + 2, acc.push(simple_escape(s[i + 1])->0))
        } else if s[i + 1] == 'u' {
            match hex4(s, i + 2) {
                None => None,
                Some(hi) => if 0xD800 <= hi < 0xDC00 {
                    if i + 7 < s.len() && s[i + 6] == '\\' && s[i + 7] == 'u' {
                        match hex4(s, i + 8) {
                            None => None,
                            Some(lo) => if 0xDC00 <= lo < 0xE000 {
                                p_str(
                                    s,
                                    i + 12,
                                    acc.push((0x10000 + (hi - 0xD800) * 1024 + (lo - 0xDC00)) as char),
                                )
                            } else {
                                None
                            },
                        }
                    } else {
                        None
                    }
                } else if is_scalar(hi) {
                    p_str(s, i + 6, acc.push(hi as char))
                } else {
                    None
                },
            }
        } else {
            None
        }
    } else {
        p_str(s, i + 1, acc.push(s[i]))
    }
}

pub proof fn lemma_skip_ws(s: Seq<char>, i: int)
    ensures
        skip_ws(s, i) >= i,
        0 <= i <= s.len() ==> skip_ws(s, i) <= s.len(),
        forall|j: int| i <= j < skip_ws(s, i) ==> is_jws(s[j]),
        0 <= i ==> (0 <= skip_ws(s, i) < s.len() ==> !is_jws(s[skip_ws(s, i)])),
    decreases s.len() - i,
{
    if 0 <= i < s.len() && is_jws(s[i]) {
        lemma_skip_ws(s, i + 1);
    }
}

pub proof fn lemma_p_str_advances(s: Seq<char>, i: int, acc: Seq<char>)
    ensures
        p_str(s, i, acc) matches Some((_, j)) ==> i < j <= s.len(),
    decreases s.len() - i,
{
    if i < 0 || i >= s.len() {
    } else if s[i] == '"' {
    } else if s[i] == '\\' {
        if i + 1 >= s.len() {
        } else if simple_escape(s[i + 1]) is Some {
            lemma_p_str_advances(s, i + 2, acc.push(simple_escape(s[i + 1])->0));
        } else if s[i + 1] == 'u' {
            match hex4(s, i + 2) {
                None => {},
                Some(hi) => if 0xD800 <= hi < 0xDC00 {
                    if i + 7 < s.len() && s[i + 6] == '\\' && s[i + 7] == 'u' {
                        match hex4(s, i + 8) {
                            None => {},
                            Some(lo) => if 0xDC00 <= lo < 0xE000 {
                                lemma_p_str_advances(
                                    s,
                                    i + 12,
                                    acc.push((0x10000 + (hi - 0xD800) * 1024 + (lo - 0xDC00)) as char),
                                );
                            },
                        }
                    }
                } else if is_scalar(hi) {
                    lemma_p_str_advances(s, i + 6, acc.push(hi as char));
                },
            }
        }
    } else {
        lemma_p_str_advances(s, i + 1, acc.push(s[i]));
    }
}

/// A char that may continue a number token.
pub open spec fn is_num_char(c: char) -> bool {
    is_digit(c) || c == '.' || c == 'e' || c == 'E' || c == '+' || c == '-'
}

/// End of the run of number chars from `i`.
pub open spec fn num_run_end(s: Seq<char>, i: int) -> int
    decreases s.len() - i,
{
    if 0 <= i < s.len() && is_num_char(s[i]) {
        num_run_end(s, i + 1)
    } else {
        i
    }
}

/// End of the number token that starts at `i`: an optional `-`, then number chars.
pub open spec fn num_end(s: Seq<char>, i: int) -> int {
    if 0 <= i < s.len() && s[i] == '-' {
        num_run_end(s, i + 1)
    } else {
        num_run_end(s, i)
    }
}

/// End of the run of digits from `i`.
pub open spec fn digits_end(t: Seq<char>, i: int) -> int
    decreases t.len() - i,
{
    if 0 <= i < t.len() && is_digit(t[i]) {
        digits_end(t, i + 1)
    } else {
        i
    }
}

/// An exponent `e`/`E`, optional sign, at least one digit, from `i` to the end.
pub open spec fn is_exp_from(t: Seq<char>, i: int) -> bool {
    0 <= i < t.len() && (t[i] == 'e' || t[i] == 'E') && {
        let j = if i + 1 < t.len() && (t[i + 1] == '+' || t[i + 1] == '-') {
            i + 2
        } else {
            i + 1
        };
        j < t.len() && digits_end(t, j) == t.len()
    }
}

/// Decimal number syntax accepted by std's float parser:
/// `Sign? (Digit+ | Digit+ '.' Digit* | Digit* '.' Digit+) Exp?`.
pub open spec fn is_float_text(t: Seq<char>) -> bool {
    let b = if t.len() > 0 && (t[0] == '+' || t[0] == '-') {
        1int
    } else {
        0int
    };
    let d1 = digits_end(t, b);
    let (ok, rest) = if d1 < t.len() && t[d1] == '.' {
        let d2 = digits_end(t, d1 + 1);
        (d1 > b || d2 > d1 + 1, d2)
    } else {
        (d1 > b, d1)
    };
    ok && (rest == t.len() || is_exp_from(t, rest))
}

/// `lit` occurs in `s` at `i`.
pub open spec fn has_at(s: Seq<char>, i: int, lit: Seq<char>) -> bool {
    0 <= i && i + lit.len() <= s.len() && s.subrange(i, i + lit.len()) == lit
}

/// Whether `a` sorts before `b` (code-point lexicographic order).
pub open spec fn key_lt(a: Seq<char>, b: Seq<char>) -> bool
    decreases a.len(),
{
    if a.len() == 0 {
        b.len() > 0
    } else if b.len() == 0 {
        false
    } else if a[0] != b[0] {
        (a[0] as u32) < (b[0] as u32)
    } else {
        key_lt(a.drop_first(), b.drop_first())
    }
}

/// Number of leading members whose key sorts before `k`.
pub open spec fn ins_pos(m: Seq<(Seq<char>, JsonV)>, k: Seq<char>) -> int
    decreases m.len(),
{
    if m.len() == 0 || !key_lt(m[0].0, k) {
        0
    } else {
        1 + ins_pos(m.drop_first(), k)
    }
}

/// Ordered-map insert: replaces the value of `k` or adds `(k, v)` in key order.
pub open spec fn obj_insert(m: Seq<(Seq<char>, JsonV)>, k: Seq<char>, v: JsonV) -> Seq<
    (Seq<char>, JsonV),
> {
    let p = ins_pos(m, k);
    if p < m.len() && m[p].0 == k {
        m.update(p, (k, v))
    } else {
        m.insert(p, (k, v))
    }
}

/// A value starting at `i`: the value and the position after it.
pub open spec fn p_value(s: Seq<char>, i: int) -> Option<(JsonV, int)>
    decreases s.len() - i, 2nat,
{
    if i < 0 || i >= s.len() {
        None
    } else {
        let c = s[i];
        if c == '{' {
            let k = skip_ws(s, i + 1);
            if k < s.len() && s[k] == '}' {
                Some((JsonV::Obj(seq![]), k + 1))
            } else {
                p_members(s, i, seq![])
            }
        } else if c == '[' {
            let k = skip_ws(s, i + 1);
            if k < s.len() && s[k] == ']' {
                Some((JsonV::Arr(seq![]), k + 1))
            } else {
                p_items(s, i, seq![])
            }
        } else if c == '"' {
            match p_str(s, i + 1, seq![]) {
                Some((t, j)) => Some((JsonV::Str(t), j)),
                None => None,
            }
        } else if c == 't' {
            if has_at(s, i, lit_true()) {
                Some((JsonV::Bool(true), i + 4))
            } else {
                None
            }
        } else if c == 'f' {
            if has_at(s, i, lit_false()) {
                Some((JsonV::Bool(false), i + 5))
            } else {
                None
            }
        } else if c == 'n' {
            if has_at(s, i, lit_null()) {
                Some((JsonV::Null, i + 4))
            } else {
                None
            }
        } else if c == '-' || is_digit(c) {
            let j = num_end(s, i);
            if is_float_text(s.subrange(i, j)) {
                Some((JsonV::Num(s.subrange(i, j)), j))
            } else {
                None
            }
        } else {
            None
        }
    }
}

/// Array items after the `[` or `,` at `i`, with the items read so far.
pub open spec fn p_items(s: Seq<char>, i: int, acc: Seq<JsonV>) -> Option<(JsonV, int)>
    decreases s.len() - i, 0nat,
{
    if i < 0 || i >= s.len() {
        None
    } else {
        proof {
            lemma_skip_ws(s, i + 1);
        }
        match p_value(s, skip_ws(s, i + 1)) {
            None => None,
            Some((v, j)) => if j <= i {
                None
            } else {
                proof {
                    lemma_skip_ws(s, j);
                }
                let k = skip_ws(s, j);
                if k < s.len() && s[k] == ',' {
                    p_items(s, k, acc.push(v))
                } else if k < s.len() && s[k] == ']' {
                    Some((JsonV::Arr(acc.push(v)), k + 1))
                } else {
                    None
                }
            },
        }
    }
}

/// Object members after the `{` or `,` at `i`, with the members read so far.
pub open spec fn p_members(s: Seq<char>, i: int, acc: Seq<(Seq<char>, JsonV)>) -> Option<
    (JsonV, int),
>
    decreases s.len() - i, 0nat,
{
    if i < 0 || i >= s.len() {
        None
    } else {
        proof {
            lemma_skip_ws(s, i + 1);
        }
        let k = skip_ws(s, i + 1);
        if !(k < s.len() && s[k] == '"') {
            None
        } else {
            match p_str(s, k + 1, seq![]) {
                None => None,
                Some((key, j1)) => {
                    proof {
                        lemma_p_str_advances(s, k + 1, seq![]);
                        lemma_skip_ws(s, j1);
                    }
                    let k2 = skip_ws(s, j1);
                    if !(k2 < s.len() && s[k2] == ':') {
                        None
                    } else {
                        proof {
                            lemma_skip_ws(s, k2 + 1);
                        }
                        match p_value(s, skip_ws(s, k2 + 1)) {
                            None => None,
                            Some((v, j2)) => if j2 <= i {
                                None
                            } else {
                                proof {
                                    lemma_skip_ws(s, j2);
                                }
                                let k3 = skip_ws(s, j2);
                                let m = obj_insert(acc, key, v);
                                if k3 < s.len() && s[k3] == ',' {
                                    p_members(s, k3, m)
                                } else if k3 < s.len() && s[k3] == '}' {
                                    Some((JsonV::Obj(m), k3 + 1))
                                } else {
                                    None
                                }
                            },
                        }
                    }
                },
            }
        }
    }
}

/// A whole document: one value with only whitespace around it.
pub open spec fn parse_spec(s: Seq<char>) -> Option<JsonV> {
    match p_value(s, skip_ws(s, 0)) {
        Some((v, j)) => if skip_ws(s, j) == s.len() {
            Some(v)
        } else {
            None
        },
        None => None,
    }
}

// ---------- what a failed parse reports ----------

/// UTF-8 length of a char.
pub open spec fn utf8_size(c: char) -> nat {
    if (c as u32) < 0x80 {
        1
    } else if (c as u32) < 0x800 {
        2
    } else if (c as u32) < 0x10000 {
        3
    } else {
        4
    }
}

/// The UTF-8 length of the first `n` chars: the byte offset of char `n`.
pub open spec fn bytes_before(s: Seq<char>, n: int) -> nat
    decreases n,
{
    if n <= 0 || n > s.len() {
        0
    } else {
        bytes_before(s, n - 1) + utf8_size(s[n - 1])
    }
}

/// The byte offset of position `i` (the text's length past its end).
pub open spec fn byte_at(s: Seq<char>, i: int) -> nat {
    if i < s.len() {
        bytes_before(s, i)
    } else {
        bytes_before(s, s.len() as int)
    }
}

/// The first UTF-8 byte of a char.
pub open spec fn first_byte(c: char) -> int {
    let v = c as u32 as int;
    if v < 0x80 {
        v
    } else if v < 0x800 {
        0xC0 + v / 64
    } else if v < 0x10000 {
        0xE0 + v / 4096
    } else {
        0xF0 + v / 262144
    }
}

/// A byte read as a char, written as Rust's `{:?}` writes a char (quotes
/// included).
pub open spec fn debug_byte(b: int) -> Seq<char> {
    let inner = if b == 0 {
        "\\0"@
    } else if b == 9 {
        "\\t"@
    } else if b == 10 {
        "\\n"@
    } else if b == 13 {
        "\\r"@
    } else if b == 39 {
        "\\'"@
    } else if b == 92 {
        "\\\\"@
    } else if b < 0x20 || b == 0x7f {
        "\\u{"@ + hex(b as nat) + "}"@
    } else {
        seq![b as char]
    };
    seq!['\''] + inner + seq!['\'']
}

/// The byte at position `i` as `{:?}` writes an `Option<char>`.
pub open spec fn found(s: Seq<char>, i: int) -> Seq<char> {
    if 0 <= i < s.len() {
        "Some("@ + debug_byte(first_byte(s[i])) + ")"@
    } else {
        "None"@
    }
}

/// ` at byte N` for position `i`.
pub open spec fn at_byte(s: Seq<char>, i: int) -> Seq<char> {
    " at byte "@ + dec(byte_at(s, i))
}

/// `expected 'c' at byte N, found ...`
pub open spec fn expected_msg(c: char, s: Seq<char>, i: int) -> Seq<char> {
    "expected '"@ + seq![c] + "'"@ + at_byte(s, i) + ", found "@ + found(s, i)
}

/// `expected ',' or 'c' at byte N, found ...`
pub open spec fn expected_sep_msg(c: char, s: Seq<char>, i: int) -> Seq<char> {
    "expected ',' or '"@ + seq![c] + "'"@ + at_byte(s, i) + ", found "@ + found(s, i)
}

/// `unexpected ... at byte N`
pub open spec fn unexpected_msg(s: Seq<char>, i: int) -> Seq<char> {
    "unexpected "@ + found(s, i) + at_byte(s, i)
}

/// The UTF-8 length of the text from position `i` on.
pub open spec fn bytes_from(s: Seq<char>, i: int) -> nat
    decreases s.len() - i,
{
    if 0 <= i < s.len() {
        utf8_size(s[i]) + bytes_from(s, i + 1)
    } else {
        0
    }
}

/// What four hex digits at `i` that do not read report: the escape is cut
/// short when fewer than four bytes of text are left.
pub open spec fn hex4_err(s: Seq<char>, i: int) -> Seq<char> {
    if bytes_from(s, i) < 4 {
        "truncated \\u escape"@
    } else {
        "invalid hex"@
    }
}

/// What string contents from `i` that do not read report.
pub open spec fn e_str(s: Seq<char>, i: int) -> Seq<char>
    decreases s.len() - i,
{
    if i < 0 || i >= s.len() {
        "unterminated string"@
    } else if s[i] == '"' {
        seq![]
    } else if s[i] == '\\' {
        if i + 1 >= s.len() {
            "unterminated escape"@
        } else if simple_escape(s[i + 1]) is Some {
            e_str(s, i + 2)
        } else if s[i + 1] == 'u' {
            match hex4(s, i + 2) {
                None => hex4_err(s, i + 2),
                Some(hi) => if 0xD800 <= hi < 0xDC00 {
                    if i + 7 < s.len() && s[i + 6] == '\\' && s[i + 7] == 'u' {
                        match hex4(s, i + 8) {
                            None => hex4_err(s, i + 8),
                            Some(lo) => if 0xDC00 <= lo < 0xE000 {
                                e_str(s, i + 12)
                            } else {
                                "invalid low surrogate"@
                            },
                        }
                    } else {
                        "lone high surrogate"@
                    }
                } else if is_scalar(hi) {
                    e_str(s, i + 6)
                } else {
                    "invalid codepoint"@
                },
            }
        } else {
            "invalid escape '\\"@ + seq![first_byte(s[i + 1]) as char] + "'"@
        }
    } else {
        e_str(s, i + 1)
    }
}

/// What a value at `i` that does not read reports.
pub open spec fn e_value(s: Seq<char>, i: int) -> Seq<char>
    decreases s.len() - i, 2nat,
{
    if i < 0 || i >= s.len() {
        unexpected_msg(s, i)
    } else {
        let c = s[i];
        if c == '{' {
            let k = skip_ws(s, i + 1);
            if k < s.len() && s[k] == '}' {
                seq![]
            } else {
                e_members(s, i)
            }
        } else if c == '[' {
            let k = skip_ws(s, i + 1);
            if k < s.len() && s[k] == ']' {
                seq![]
            } else {
                e_items(s, i)
            }
        } else if c == '"' {
            e_str(s, i + 1)
        } else if c == 't' || c == 'f' || c == 'n' {
            "invalid literal"@ + at_byte(s, i)
        } else if c == '-' || is_digit(c) {
            "invalid number '"@ + s.subrange(i, num_end(s, i)) + "'"@
        } else {
            unexpected_msg(s, i)
        }
    }
}

/// What array items after the `[` or `,` at `i` that do not read report.
pub open spec fn e_items(s: Seq<char>, i: int) -> Seq<char>
    decreases s.len() - i, 0nat,
{
    if i < 0 || i >= s.len() {
        seq![]
    } else {
        proof {
            lemma_skip_ws(s, i + 1);
        }
        let k = skip_ws(s, i + 1);
        match p_value(s, k) {
            None => e_value(s, k),
            Some((v, j)) => if j <= i {
                seq![]
            } else {
                proof {
                    lemma_skip_ws(s, j);
                }
                let k2 = skip_ws(s, j);
                if k2 < s.len() && s[k2] == ',' {
                    e_items(s, k2)
                } else {
                    expected_sep_msg(']', s, k2)
                }
            },
        }
    }
}

/// What object members after the `{` or `,` at `i` that do not read report.
pub open spec fn e_members(s: Seq<char>, i: int) -> Seq<char>
    decreases s.len() - i, 0nat,
{
    if i < 0 || i >= s.len() {
        seq![]
    } else {
        proof {
            lemma_skip_ws(s, i + 1);
        }
        let k = skip_ws(s, i + 1);
        if !(k < s.len() && s[k] == '"') {
            expected_msg('"', s, k)
        } else {
            match p_str(s, k + 1, seq![]) {
                None => e_str(s, k + 1),
                Some((key, j1)) => {
                    proof {
                        lemma_p_str_advances(s, k + 1, seq![]);
                        lemma_skip_ws(s, j1);
                    }
                    let k2 = skip_ws(s, j1);
                    if !(k2 < s.len() && s[k2] == ':') {
                        expected_msg(':', s, k2)
                    } else {
                        proof {
                            lemma_skip_ws(s, k2 + 1);
                        }
                        let k3 = skip_ws(s, k2 + 1);
                        match p_value(s, k3) {
                            None => e_value(s, k3),
                            Some((v, j2)) => if j2 <= i {
                                seq![]
                            } else {
                                proof {
                                    lemma_skip_ws(s, j2);
                                }
                                let k4 = skip_ws(s, j2);
                                if k4 < s.len() && s[k4] == ',' {
                                    e_members(s, k4)
                                } else {
                                    expected_sep_msg('}', s, k4)
                                }
                            },
                        }
                    }
                },
            }
        }
    }
}

/// What a text that is not one JSON document reports.
pub open spec fn parse_error(s: Seq<char>) -> Seq<char> {
    let k = skip_ws(s, 0);
    match p_value(s, k) {
        None => e_value(s, k),
        Some((v, j)) => "trailing characters"@ + at_byte(s, skip_ws(s, j)),
    }
}


/// The char of a code point (std's `char::from_u32`): `None` for surrogates
/// and values above U+10FFFF.
#[verifier::external_body]
fn char_from_u32(v: u32) -> (r: Option<char>)
    ensures
        r == (if is_scalar(v as int) {
            Some(v as char)
        } else {
            None
        }),
{
    char::from_u32(v)
}

fn is_jws_exec(c: char) -> (r: bool)
    ensures
        r == is_jws(c),
{
    c == ' ' || c == '\t' || c == '\n' || c == '\r'
}

fn skip_ws_exec(s: &Vec<char>, i: usize) -> (r: usize)
    requires
        i <= s@.len(),
    ensures
        r as int == skip_ws(s@, i as int),
        i <= r <= s@.len(),
{
    let n = s.len();
    let mut j = i;
    while j < n && is_jws_exec(s[j])
        invariant
            n == s@.len(),
            i <= j <= n,
            skip_ws(s@, i as int) == skip_ws(s@, j as int),
        decreases n - j,
    {
        j = j + 1;
    }
    j
}

/// UTF-8 length of a char.
fn utf8_len(c: char) -> (r: u128)
    ensures
        r == utf8_size(c),
        1 <= r <= 4,
{
    let v = c as u32;
    if v < 0x80 {
        1
    } else if v < 0x800 {
        2
    } else if v < 0x10000 {
        3
    } else {
        4
    }
}

/// Byte offset of char position `i` in the UTF-8 text.
fn byte_offset(s: &Vec<char>, i: usize) -> (r: u128)
    ensures
        r == byte_at(s@, i as int),
{
    let n = if i < s.len() { i } else { s.len() };
    let mut acc: u128 = 0;
    let mut k: usize = 0;
    while k < n
        invariant
            n <= s@.len(),
            k <= n,
            acc == bytes_before(s@, k as int),
            acc <= 4 * k,
        decreases n - k,
    {
        acc = acc + utf8_len(s[k]);
        k = k + 1;
    }
    acc
}

/// `text` followed by ` at byte N` for position `i`.
fn msg_at(text: &str, s: &Vec<char>, i: usize) -> (r: String)
    ensures
        r@ == text@ + at_byte(s@, i as int),
{
    let mut out: Vec<char> = Vec::new();
    extend_str(&mut out, text);
    extend_str(&mut out, " at byte ");
    push_dec(&mut out, byte_offset(s, i));
    assert(out@ =~= text@ + at_byte(s@, i as int));
    string_of(out.as_slice())
}

/// The first UTF-8 byte of a char.
fn first_byte_exec(c: char) -> (r: u32)
    ensures
        r as int == first_byte(c),
        r < 0xF5,
        r < 0x80 || r >= 0xC0,
{
    let v = c as u32;
    if v < 0x80 {
        v
    } else if v < 0x800 {
        0xC0 + v / 64
    } else if v < 0x10000 {
        0xE0 + v / 4096
    } else {
        0xF0 + v / 262144
    }
}

/// Appends a byte read as a char, as `{:?}` writes it.
fn push_debug_byte(out: &mut Vec<char>, b: u32)
    requires
        b < 0x100,
    ensures
        final(out)@ == old(out)@ + debug_byte(b as int),
{
    let ghost start = old(out)@;
    out.push('\'');
    if b == 0 {
        extend_str(out, "\\0");
    } else if b == 9 {
        extend_str(out, "\\t");
    } else if b == 10 {
        extend_str(out, "\\n");
    } else if b == 13 {
        extend_str(out, "\\r");
    } else if b == 39 {
        extend_str(out, "\\'");
    } else if b == 92 {
        extend_str(out, "\\\\");
    } else if b < 0x20 || b == 0x7f {
        extend_str(out, "\\u{");
        push_hex(out, b as u128);
        extend_str(out, "}");
    } else {
        match char_from_u32(b) {
            Some(c) => {
                out.push(c);
            },
            None => {},
        }
    }
    out.push('\'');
    assert(out@ =~= start + debug_byte(b as int));
}

/// `Some('c')` for the byte at `i`, `None` past the end.
fn push_found(out: &mut Vec<char>, s: &Vec<char>, i: usize)
    ensures
        final(out)@ == old(out)@ + found(s@, i as int),
{
    let ghost start = old(out)@;
    if i < s.len() {
        extend_str(out, "Some(");
        push_debug_byte(out, first_byte_exec(s[i]));
        extend_str(out, ")");
    } else {
        extend_str(out, "None");
    }
    assert(out@ =~= start + found(s@, i as int));
}

fn hex_val_exec(c: char) -> (r: Option<u32>)
    ensures
        r matches Some(v) ==> hex_val(c) == Some(v as int) && v < 16,
        r is None ==> hex_val(c) is None,
{
    if '0' <= c && c <= '9' {
        Some((c as u32) - ('0' as u32))
    } else if 'a' <= c && c <= 'f' {
        Some((c as u32) - ('a' as u32) + 10)
    } else if 'A' <= c && c <= 'F' {
        Some((c as u32) - ('A' as u32) + 10)
    } else {
        None
    }
}

fn hex4_exec(s: &Vec<char>, i: usize) -> (r: Result<u32, String>)
    ensures
        r matches Ok(v) ==> hex4(s@, i as int) == Some(v as int) && v <= 0xffff && i + 4 <= s@.len(),
        r is Err ==> hex4(s@, i as int) is None,
        r matches Err(m) ==> m@ == hex4_err(s@, i as int),
{
    if s.len() < 4 || i > s.len() - 4 {
        // fewer than four chars are left: count their bytes
        let mut n: u128 = 0;
        let mut k: usize = i;
        while k < s.len()
            invariant
                i <= k || k >= s@.len(),
                k <= i + 3 || k >= s@.len(),
                s.len() < 4 || i > s.len() - 4,
                n + bytes_from(s@, k as int) == bytes_from(s@, i as int),
                n <= 4 * (k - i),
                k >= i,
            decreases s@.len() - k,
        {
            n = n + utf8_len(s[k]);
            k = k + 1;
        }
        if n < 4 {
            return Err(copy_string("truncated \\u escape"));
        }
        return Err(copy_string("invalid hex"));
    }
    proof {
        assert(bytes_from(s@, i + 3) >= 1);
        assert(bytes_from(s@, i + 2) >= 2);
        assert(bytes_from(s@, i + 1) >= 3);
        assert(bytes_from(s@, i as int) >= 4);
    }
    let a = hex_val_exec(s[i]);
    let b = hex_val_exec(s[i + 1]);
    let c = hex_val_exec(s[i + 2]);
    let d = hex_val_exec(s[i + 3]);
    if a.is_some() && b.is_some() && c.is_some() && d.is_some() {
        let v = ((a.unwrap() * 16 + b.unwrap()) * 16 + c.unwrap()) * 16 + d.unwrap();
        Ok(v)
    } else if s[i] == '+' && b.is_some() && c.is_some() && d.is_some() {
        let v = (b.unwrap() * 16 + c.unwrap()) * 16 + d.unwrap();
        Ok(v)
    } else {
        Err(copy_string("invalid hex"))
    }
}

fn simple_escape_exec(e: char) -> (r: Option<char>)
    ensures
        r == simple_escape(e),
{
    if e == '"' {
        Some('"')
    } else if e == '\\' {
        Some('\\')
    } else if e == '/' {
        Some('/')
    } else if e == 'b' {
        Some('\u{8}')
    } else if e == 'f' {
        Some('\u{c}')
    } else if e == 'n' {
        Some('\n')
    } else if e == 'r' {
        Some('\r')
    } else if e == 't' {
        Some('\t')
    } else {
        None
    }
}

/// Reads string contents from `i` (after the opening quote): the text and
/// the position after the closing quote.
fn parse_string(s: &Vec<char>, i: usize) -> (r: Result<(String, usize), String>)
    ensures
        r matches Ok((t, j)) ==> p_str(s@, i as int, seq![]) == Some((t@, j as int)),
        r is Err ==> p_str(s@, i as int, seq![]) is None,
        r matches Err(m) ==> m@ == e_str(s@, i as int),
{
    let n = s.len();
    let mut acc: Vec<char> = Vec::new();
    let mut k = i;
    while k < n
        invariant
            n == s@.len(),
            i <= k,
            p_str(s@, i as int, seq![]) == p_str(s@, k as int, acc@),
            e_str(s@, i as int) == e_str(s@, k as int),
        decreases n - k,
    {
        let c = s[k];
        if c == '"' {
            return Ok((string_of(acc.as_slice()), k + 1));
        } else if c == '\\' {
            if k + 1 >= n {
                return Err(copy_string("unterminated escape"));
            }
            let e = s[k + 1];
            match simple_escape_exec(e) {
                Some(x) => {
                    acc.push(x);
                    k = k + 2;
                },
                None => {
                    if e != 'u' {
                        let mut m: Vec<char> = Vec::new();
                        extend_str(&mut m, "invalid escape '\\");
                        match char_from_u32(first_byte_exec(e)) {
                            Some(b) => {
                                m.push(b);
                            },
                            None => {},
                        }
                        m.push('\'');
                        proof {
                            reveal_strlit("'");
                            assert(m@ =~= e_str(s@, k as int));
                        }
                        return Err(string_of(m.as_slice()));
                    }
                    let hi = match hex4_exec(s, k + 2) {
                        Ok(h) => h,
                        Err(m) => {
                            return Err(m);
                        },
                    };
                    if 0xD800 <= hi && hi < 0xDC00 {
                        if n - k > 7 && s[k + 6] == '\\' && s[k + 7] == 'u' {
                            let lo = match hex4_exec(s, k + 8) {
                                Ok(l) => l,
                                Err(m) => {
                                    return Err(m);
                                },
                            };
                            if !(0xDC00 <= lo && lo < 0xE000) {
                                return Err(copy_string("invalid low surrogate"));
                            }
                            let cp = 0x10000 + (hi - 0xD800) * 1024 + (lo - 0xDC00);
                            match char_from_u32(cp) {
                                Some(ch) => {
                                    acc.push(ch);
                                },
                                None => {
                                    return Err(copy_string("invalid codepoint"));
                                },
                            }
                            k = k + 12;
                        } else {
                            return Err(copy_string("lone high surrogate"));
                        }
                    } else {
                        match char_from_u32(hi) {
                            Some(ch) => {
                                acc.push(ch);
                            },
                            None => {
                                return Err(copy_string("invalid codepoint"));
                            },
                        }
                        k = k + 6;
                    }
                },
            }
        } else {
            acc.push(c);
            k = k + 1;
        }
    }
    Err(copy_string("unterminated string"))
}


fn is_num_char_exec(c: char) -> (r: bool)
    ensures
        r == is_num_char(c),
{
    ('0' <= c && c <= '9') || c == '.' || c == 'e' || c == 'E' || c == '+' || c == '-'
}

fn num_end_exec(s: &Vec<char>, i: usize) -> (r: usize)
    requires
        i < s@.len(),
    ensures
        r as int == num_end(s@, i as int),
        i < r <= s@.len() || (r == i && s@[i as int] != '-'),
{
    let n = s.len();
    let mut j = if s[i] == '-' { i + 1 } else { i };
    let ghost j0 = j;
    while j < n && is_num_char_exec(s[j])
        invariant
            n == s@.len(),
            j0 <= j <= n,
            j0 == (if s@[i as int] == '-' { i + 1 } else { i as int }),
            num_run_end(s@, j0 as int) == num_run_end(s@, j as int),
        decreases n - j,
    {
        j = j + 1;
    }
    j
}

fn digits_end_exec(t: &Vec<char>, i: usize) -> (r: usize)
    requires
        i <= t@.len(),
    ensures
        r as int == digits_end(t@, i as int),
        i <= r <= t@.len(),
{
    let n = t.len();
    let mut j = i;
    while j < n && '0' <= t[j] && t[j] <= '9'
        invariant
            n == t@.len(),
            i <= j <= n,
            digits_end(t@, i as int) == digits_end(t@, j as int),
        decreases n - j,
    {
        j = j + 1;
    }
    j
}

/// Whether `t` has the decimal number syntax of std's float parser.
pub fn is_float_text_exec(t: &Vec<char>) -> (r: bool)
    ensures
        r == is_float_text(t@),
{
    let n = t.len();
    let b: usize = if n > 0 && (t[0] == '+' || t[0] == '-') { 1 } else { 0 };
    let d1 = digits_end_exec(t, b);
    let (ok, rest) = if d1 < n && t[d1] == '.' {
        let d2 = digits_end_exec(t, d1 + 1);
        (d1 > b || d2 > d1 + 1, d2)
    } else {
        (d1 > b, d1)
    };
    if !ok {
        return false;
    }
    if rest == n {
        return true;
    }
    if !(t[rest] == 'e' || t[rest] == 'E') {
        return false;
    }
    let j = if rest + 1 < n && (t[rest + 1] == '+' || t[rest + 1] == '-') { rest + 2 } else { rest + 1 };
    j < n && digits_end_exec(t, j) == n
}

/// Whether `lit` occurs in `s` at `i`.
fn has_at_exec(s: &Vec<char>, i: usize, lit: &Vec<char>) -> (r: bool)
    ensures
        r == has_at(s@, i as int, lit@),
{
    if i > s.len() || lit.len() > s.len() - i {
        return false;
    }
    crate::text::chars_eq_range(lit.as_slice(), s.as_slice(), i, i + lit.len())
}

/// Whether `a` sorts before `b` (code-point lexicographic order).
pub fn key_lt_exec(a: &str, b: &str) -> (r: bool)
    ensures
        r == key_lt(a@, b@),
{
    let x = chars_of(a);
    let y = chars_of(b);
    let mut i: usize = 0;
    assert(x@.skip(0) =~= x@);
    assert(y@.skip(0) =~= y@);
    while i < x.len() && i < y.len() && x[i] == y[i]
        invariant
            i <= x@.len(),
            i <= y@.len(),
            key_lt(x@, y@) == key_lt(x@.skip(i as int), y@.skip(i as int)),
        decreases x@.len() - i,
    {
        proof {
            assert(x@.skip(i as int).drop_first() =~= x@.skip(i + 1));
            assert(y@.skip(i as int).drop_first() =~= y@.skip(i + 1));
        }
        i = i + 1;
    }
    if i == x.len() {
        i < y.len()
    } else if i == y.len() {
        false
    } else {
        assert(x@.skip(i as int)[0] == x@[i as int]);
        assert(y@.skip(i as int)[0] == y@[i as int]);
        (x[i] as u32) < (y[i] as u32)
    }
}

proof fn lemma_jv_pairs_update(m: Seq<(String, Json)>, p: int, x: (String, Json))
    requires
        0 <= p < m.len(),
    ensures
        jv_pairs(m.update(p, x)) == jv_pairs(m).update(p, (x.0@, jv(x.1))),
{
    lemma_jv_pairs(m);
    lemma_jv_pairs(m.update(p, x));
    assert(jv_pairs(m.update(p, x)) =~= jv_pairs(m).update(p, (x.0@, jv(x.1))));
}

proof fn lemma_jv_pairs_insert(m: Seq<(String, Json)>, p: int, x: (String, Json))
    requires
        0 <= p <= m.len(),
    ensures
        jv_pairs(m.insert(p, x)) == jv_pairs(m).insert(p, (x.0@, jv(x.1))),
{
    lemma_jv_pairs(m);
    lemma_jv_pairs(m.insert(p, x));
    assert(jv_pairs(m.insert(p, x)) =~= jv_pairs(m).insert(p, (x.0@, jv(x.1))));
}

/// Ordered-map insert into object members: replaces the value of `key` or
/// adds the member in key order.
pub fn obj_insert_exec(m: &mut Vec<(String, Json)>, key: String, value: Json)
    ensures
        jv_pairs(final(m)@) == obj_insert(jv_pairs(old(m)@), key@, jv(value)),
{
    let ghost mm = jv_pairs(m@);
    proof {
        lemma_jv_pairs(m@);
    }
    let n = m.len();
    let mut p: usize = 0;
    assert(mm.skip(0) =~= mm);
    while p < n && key_lt_exec(m[p].0.as_str(), key.as_str())
        invariant
            n == m@.len(),
            p <= n,
            mm == jv_pairs(m@),
            mm.len() == n,
            forall|i: int| 0 <= i < n ==> #[trigger] mm[i] == (m@[i].0@, jv(m@[i].1)),
            ins_pos(mm, key@) == p + ins_pos(mm.skip(p as int), key@),
        decreases n - p,
    {
        proof {
            assert(mm.skip(p as int).drop_first() =~= mm.skip(p + 1));
        }
        p = p + 1;
    }
    proof {
        if p < n {
            assert(mm.skip(p as int)[0] == mm[p as int]);
        }
    }
    if p < n && str_eq(m[p].0.as_str(), key.as_str()) {
        proof {
            lemma_jv_pairs_update(m@, p as int, (key, value));
        }
        m.set(p, (key, value));
    } else {
        proof {
            lemma_jv_pairs_insert(m@, p as int, (key, value));
        }
        m.insert(p, (key, value));
    }
}


/// `expected ',' or 'X' at byte N, found ...`
fn msg_expected_sep(close: char, s: &Vec<char>, i: usize) -> (r: String)
    ensures
        r@ == expected_sep_msg(close, s@, i as int),
{
    let mut out: Vec<char> = Vec::new();
    extend_str(&mut out, "expected ',' or '");
    out.push(close);
    out.push('\'');
    extend_str(&mut out, " at byte ");
    push_dec(&mut out, byte_offset(s, i));
    extend_str(&mut out, ", found ");
    push_found(&mut out, s, i);
    proof {
        reveal_strlit("'");
    }
    assert(out@ =~= expected_sep_msg(close, s@, i as int));
    string_of(out.as_slice())
}

/// `expected 'X' at byte N, found ...`
fn msg_expected(c: char, s: &Vec<char>, i: usize) -> (r: String)
    ensures
        r@ == expected_msg(c, s@, i as int),
{
    let mut out: Vec<char> = Vec::new();
    extend_str(&mut out, "expected '");
    out.push(c);
    out.push('\'');
    extend_str(&mut out, " at byte ");
    push_dec(&mut out, byte_offset(s, i));
    extend_str(&mut out, ", found ");
    push_found(&mut out, s, i);
    proof {
        reveal_strlit("'");
    }
    assert(out@ =~= expected_msg(c, s@, i as int));
    string_of(out.as_slice())
}

/// `unexpected ... at byte N`
fn msg_unexpected(s: &Vec<char>, i: usize) -> (r: String)
    ensures
        r@ == unexpected_msg(s@, i as int),
{
    let mut out: Vec<char> = Vec::new();
    extend_str(&mut out, "unexpected ");
    push_found(&mut out, s, i);
    extend_str(&mut out, " at byte ");
    push_dec(&mut out, byte_offset(s, i));
    assert(out@ =~= unexpected_msg(s@, i as int));
    string_of(out.as_slice())
}

/// Reads a value at `i`: the value and the position after it.
fn parse_value(s: &Vec<char>, i: usize) -> (r: Result<(Json, usize), String>)
    ensures
        r matches Ok((v, j)) ==> p_value(s@, i as int) == Some((jv(v), j as int)) && i < j <= s@.len(),
        r is Err ==> p_value(s@, i as int) is None,
        r matches Err(m) ==> m@ == e_value(s@, i as int),
    decreases s@.len() - i, 2nat,
{
    if i >= s.len() {
        return Err(msg_unexpected(s, i));
    }
    let c = s[i];
    if c == '{' {
        let k = skip_ws_exec(s, i + 1);
        if k < s.len() && s[k] == '}' {
            let m: Vec<(String, Json)> = Vec::new();
            proof {
                assert(jv(Json::Obj(m)) == JsonV::Obj(seq![]));
            }
            return Ok((Json::Obj(m), k + 1));
        }
        parse_members(s, i)
    } else if c == '[' {
        let k = skip_ws_exec(s, i + 1);
        if k < s.len() && s[k] == ']' {
            let a: Vec<Json> = Vec::new();
            proof {
                assert(jv(Json::Arr(a)) == JsonV::Arr(seq![]));
            }
            return Ok((Json::Arr(a), k + 1));
        }
        parse_items(s, i)
    } else if c == '"' {
        match parse_string(s, i + 1) {
            Ok((t, j)) => {
                proof {
                    lemma_p_str_advances(s@, i + 1, seq![]);
                }
                Ok((Json::Str(t), j))
            },
            Err(e) => Err(e),
        }
    } else if c == 't' || c == 'f' || c == 'n' {
        let lit: Vec<char> = if c == 't' {
            vec!['t', 'r', 'u', 'e']
        } else if c == 'f' {
            vec!['f', 'a', 'l', 's', 'e']
        } else {
            vec!['n', 'u', 'l', 'l']
        };
        proof {
            if c == 't' {
                assert(lit@ =~= lit_true());
            } else if c == 'f' {
                assert(lit@ =~= lit_false());
            } else {
                assert(lit@ =~= lit_null());
            }
        }
        if has_at_exec(s, i, &lit) {
            let v = if c == 't' {
                Json::Bool(true)
            } else if c == 'f' {
                Json::Bool(false)
            } else {
                Json::Null
            };
            Ok((v, i + lit.len()))
        } else {
            Err(msg_at("invalid literal", s, i))
        }
    } else if c == '-' || ('0' <= c && c <= '9') {
        let j = num_end_exec(s, i);
        let mut t: Vec<char> = Vec::new();
        crate::text::extend_range(&mut t, s.as_slice(), i, j);
        assert(t@ =~= s@.subrange(i as int, j as int));
        if is_float_text_exec(&t) {
            proof {
                assert(j > i) by {
                    if j == i {
                        assert(t@.len() == 0);
                    }
                }
            }
            Ok((Json::Num(string_of(t.as_slice())), j))
        } else {
            let mut out: Vec<char> = Vec::new();
            extend_str(&mut out, "invalid number '");
            crate::text::extend_chars(&mut out, t.as_slice());
            out.push('\'');
            proof {
                reveal_strlit("'");
                assert(out@ =~= e_value(s@, i as int));
            }
            Err(string_of(out.as_slice()))
        }
    } else {
        Err(msg_unexpected(s, i))
    }
}

/// Reads array items after the `[` at `i` (the array is not empty).
fn parse_items(s: &Vec<char>, i: usize) -> (r: Result<(Json, usize), String>)
    requires
        i < s@.len(),
    ensures
        r matches Ok((v, j)) ==> p_items(s@, i as int, seq![]) == Some((jv(v), j as int)) && i < j
            <= s@.len(),
        r is Err ==> p_items(s@, i as int, seq![]) is None,
        r matches Err(m) ==> m@ == e_items(s@, i as int),
    decreases s@.len() - i, 0nat,
{
    let n = s.len();
    let mut arr: Vec<Json> = Vec::new();
    let mut cur = i;
    proof {
        assert(jv_seq(arr@) =~= seq![]);
    }
    loop
        invariant
            n == s@.len(),
            i <= cur < n,
            p_items(s@, i as int, seq![]) == p_items(s@, cur as int, jv_seq(arr@)),
            e_items(s@, i as int) == e_items(s@, cur as int),
        decreases n - cur,
    {
        let k = skip_ws_exec(s, cur + 1);
        let (v, j) = match parse_value(s, k) {
            Ok(x) => x,
            Err(e) => {
                return Err(e);
            },
        };
        let k2 = skip_ws_exec(s, j);
        let ghost prev = arr@;
        let ghost jvv = jv(v);
        arr.push(v);
        proof {
            assert(arr@.drop_last() =~= prev);
            assert(jv_seq(arr@) == jv_seq(prev).push(jvv));
        }
        if k2 < n && s[k2] == ',' {
            cur = k2;
        } else if k2 < n && s[k2] == ']' {
            return Ok((Json::Arr(arr), k2 + 1));
        } else {
            return Err(msg_expected_sep(']', s, k2));
        }
    }
}


/// Reads object members after the `{` at `i` (the object is not empty).
fn parse_members(s: &Vec<char>, i: usize) -> (r: Result<(Json, usize), String>)
    requires
        i < s@.len(),
    ensures
        r matches Ok((v, j)) ==> p_members(s@, i as int, seq![]) == Some((jv(v), j as int)) && i
            < j <= s@.len(),
        r is Err ==> p_members(s@, i as int, seq![]) is None,
        r matches Err(m) ==> m@ == e_members(s@, i as int),
    decreases s@.len() - i, 0nat,
{
    let n = s.len();
    let mut m: Vec<(String, Json)> = Vec::new();
    let mut cur = i;
    proof {
        assert(jv_pairs(m@) =~= seq![]);
    }
    loop
        invariant
            n == s@.len(),
            i <= cur < n,
            p_members(s@, i as int, seq![]) == p_members(s@, cur as int, jv_pairs(m@)),
            e_members(s@, i as int) == e_members(s@, cur as int),
        decreases n - cur,
    {
        let k = skip_ws_exec(s, cur + 1);
        if !(k < n && s[k] == '"') {
            return Err(msg_expected('"', s, k));
        }
        let (key, j1) = match parse_string(s, k + 1) {
            Ok(x) => x,
            Err(e) => {
                return Err(e);
            },
        };
        proof {
            lemma_p_str_advances(s@, k + 1, seq![]);
        }
        let k2 = skip_ws_exec(s, j1);
        if !(k2 < n && s[k2] == ':') {
            return Err(msg_expected(':', s, k2));
        }
        let k3 = skip_ws_exec(s, k2 + 1);
        let (v, j2) = match parse_value(s, k3) {
            Ok(x) => x,
            Err(e) => {
                return Err(e);
            },
        };
        let k4 = skip_ws_exec(s, j2);
        obj_insert_exec(&mut m, key, v);
        if k4 < n && s[k4] == ',' {
            cur = k4;
        } else if k4 < n && s[k4] == '}' {
            return Ok((Json::Obj(m), k4 + 1));
        } else {
            return Err(msg_expected_sep('}', s, k4));
        }
    }
}

impl Json {
    /// Parses a JSON document (one value, whitespace around it allowed).
    pub fn parse(input: &str) -> (r: Result<Json, String>)
        ensures
            r matches Ok(v) ==> parse_spec(input@) == Some(jv(v)),
            r matches Ok(v) ==> well_formed(jv(v)),
            r is Err <==> parse_spec(input@) is None,
            r matches Err(m) ==> m@ == parse_error(input@),
    {
        proof {
            lemma_parse_well_formed(input@);
        }
        let s = chars_of(input);
        let k = skip_ws_exec(&s, 0);
        let (v, j) = match parse_value(&s, k) {
            Ok(x) => x,
            Err(e) => {
                return Err(e);
            },
        };
        let k2 = skip_ws_exec(&s, j);
        if k2 != s.len() {
            return Err(msg_at("trailing characters", &s, k2));
        }
        Ok(v)
    }
}


/// The value of the first member with key `k`.
pub open spec fn members_get(m: Seq<(Seq<char>, JsonV)>, k: Seq<char>) -> Option<JsonV>
    decreases m.len(),
{
    if m.len() == 0 {
        None
    } else if m[0].0 == k {
        Some(m[0].1)
    } else {
        members_get(m.drop_first(), k)
    }
}

/// Member `k` of an object value.
pub open spec fn jget(v: JsonV, k: Seq<char>) -> Option<JsonV> {
    match v {
        JsonV::Obj(m) => members_get(m, k),
        _ => None,
    }
}

/// The text of a string value.
pub open spec fn jstr(v: JsonV) -> Option<Seq<char>> {
    match v {
        JsonV::Str(s) => Some(s),
        _ => None,
    }
}

/// The text of string member `k` of an object value.
pub open spec fn jget_str(v: JsonV, k: Seq<char>) -> Option<Seq<char>> {
    match jget(v, k) {
        Some(x) => jstr(x),
        None => None,
    }
}

impl Json {
    pub fn str(s: &str) -> (r: Json)
        ensures
            jv(r) == JsonV::Str(s@),
    {
        Json::Str(copy_string(s))
    }

    pub fn as_str(&self) -> (r: Option<&str>)
        ensures
            r matches Some(t) ==> jstr(jv(*self)) == Some(t@),
            r is None ==> jstr(jv(*self)) is None,
    {
        match self {
            Json::Str(s) => Some(s.as_str()),
            _ => None,
        }
    }

    pub fn as_bool(&self) -> (r: Option<bool>)
        ensures
            r == (match jv(*self) {
                JsonV::Bool(b) => Some(b),
                _ => None,
            }),
    {
        match self {
            Json::Bool(b) => Some(*b),
            _ => None,
        }
    }

    pub fn as_arr(&self) -> (r: Option<&Vec<Json>>)
        ensures
            r matches Some(a) ==> jv(*self) == JsonV::Arr(jv_seq(a@)),
            r is None ==> !(jv(*self) is Arr),
    {
        match self {
            Json::Arr(a) => Some(a),
            _ => None,
        }
    }

    pub fn as_obj(&self) -> (r: Option<&Vec<(String, Json)>>)
        ensures
            r matches Some(m) ==> jv(*self) == JsonV::Obj(jv_pairs(m@)),
            r is None ==> !(jv(*self) is Obj),
    {
        match self {
            Json::Obj(m) => Some(m),
            _ => None,
        }
    }

    /// Member `key` of an object.
    pub fn get(&self, key: &str) -> (r: Option<&Json>)
        ensures
            r matches Some(v) ==> jget(jv(*self), key@) == Some(jv(*v)),
            r is None ==> jget(jv(*self), key@) is None,
    {
        match self {
            Json::Obj(m) => {
                let ghost mm = jv_pairs(m@);
                proof {
                    lemma_jv_pairs(m@);
                }
                let n = m.len();
                let mut i: usize = 0;
                assert(mm.skip(0) =~= mm);
                while i < n
                    invariant
                        n == m@.len(),
                        i <= n,
                        mm == jv_pairs(m@),
                        jv(*self) == JsonV::Obj(mm),
                        mm.len() == n,
                        forall|q: int| 0 <= q < n ==> #[trigger] mm[q] == (m@[q].0@, jv(m@[q].1)),
                        members_get(mm, key@) == members_get(mm.skip(i as int), key@),
                    decreases n - i,
                {
                    proof {
                        assert(mm.skip(i as int)[0] == mm[i as int]);
                        assert(mm.skip(i as int).drop_first() =~= mm.skip(i + 1));
                    }
                    if str_eq(m[i].0.as_str(), key) {
                        return Some(&m[i].1);
                    }
                    i = i + 1;
                }
                None
            },
            _ => None,
        }
    }

    /// String member `key` of an object.
    pub fn get_str(&self, key: &str) -> (r: Option<&str>)
        ensures
            r matches Some(t) ==> jget_str(jv(*self), key@) == Some(t@),
            r is None ==> jget_str(jv(*self), key@) is None,
    {
        match self.get(key) {
            Some(v) => v.as_str(),
            None => None,
        }
    }
}


// ---------- reading back what was written ----------

proof fn lemma_hex_digit_val(d: int)
    requires
        0 <= d < 16,
    ensures
        hex_val(hex_digit(d)) == Some(d),
{
    let t = seq!['0', '1', '2', '3', '4', '5', '6', '7', '8', '9', 'a', 'b', 'c', 'd', 'e', 'f'];
    assert(hex_digit(d) == t[d]);
    if d == 0 { assert(t[0] == '0'); }
    else if d == 1 { assert(t[1] == '1'); }
    else if d == 2 { assert(t[2] == '2'); }
    else if d == 3 { assert(t[3] == '3'); }
    else if d == 4 { assert(t[4] == '4'); }
    else if d == 5 { assert(t[5] == '5'); }
    else if d == 6 { assert(t[6] == '6'); }
    else if d == 7 { assert(t[7] == '7'); }
    else if d == 8 { assert(t[8] == '8'); }
    else if d == 9 { assert(t[9] == '9'); }
    else if d == 10 { assert(t[10] == 'a'); }
    else if d == 11 { assert(t[11] == 'b'); }
    else if d == 12 { assert(t[12] == 'c'); }
    else if d == 13 { assert(t[13] == 'd'); }
    else if d == 14 { assert(t[14] == 'e'); }
    else { assert(t[15] == 'f'); }
}

proof fn lemma_esc_all_front(x: Seq<char>)
    requires
        x.len() > 0,
    ensures
        esc_all(x) == esc_char(x[0]) + esc_all(x.drop_first()),
    decreases x.len(),
{
    if x.len() == 1 {
        assert(x.drop_last() =~= seq![]);
        assert(x.drop_first() =~= seq![]);
        assert(esc_all(x) =~= esc_char(x[0]) + esc_all(x.drop_first()));
    } else {
        lemma_esc_all_front(x.drop_last());
        assert(x.drop_last().drop_first() =~= x.drop_first().drop_last());
        assert(x.drop_first().last() == x.last());
        assert(esc_all(x) =~= esc_char(x[0]) + esc_all(x.drop_first()));
    }
}

/// One escaped char reads back as that char.
proof fn lemma_p_str_step(s: Seq<char>, i: int, c: char, acc: Seq<char>)
    requires
        0 <= i,
        i + esc_char(c).len() < s.len(),
        forall|t: int| 0 <= t < esc_char(c).len() ==> s[i + t] == #[trigger] esc_char(c)[t],
    ensures
        p_str(s, i, acc) == p_str(s, i + esc_char(c).len(), acc.push(c)),
{
    let e = esc_char(c);
    assert(s[i] == e[0]);
    if c == '"' || c == '\\' || c == '\n' || c == '\r' || c == '\t' {
        assert(s[i + 1] == e[1]);
    } else if (c as u32) < 0x20 {
        let v = c as u32;
        assert(s[i + 1] == e[1]);
        assert(s[i + 2] == e[2]);
        assert(s[i + 3] == e[3]);
        assert(s[i + 4] == e[4]);
        assert(s[i + 5] == e[5]);
        lemma_hex_digit_val(0);
        lemma_hex_digit_val((v / 16) as int);
        lemma_hex_digit_val((v % 16) as int);
        assert(hex4(s, i + 2) == Some(v as int));
        vstd::utf8::char_u32_cast(c, v);
        assert(v as char == c);
    }
}

/// The escaped text of `x` followed by a quote reads back as `x`.
proof fn lemma_p_str_esc(s: Seq<char>, i: int, x: Seq<char>, acc: Seq<char>)
    requires
        0 <= i,
        i + esc_all(x).len() < s.len(),
        forall|t: int| 0 <= t < esc_all(x).len() ==> s[i + t] == #[trigger] esc_all(x)[t],
        s[i + esc_all(x).len()] == '"',
    ensures
        p_str(s, i, acc) == Some((acc + x, i + esc_all(x).len() + 1)),
    decreases x.len(),
{
    if x.len() == 0 {
        assert(acc + x =~= acc);
    } else {
        let c = x[0];
        let e = esc_char(c);
        let rest = x.drop_first();
        lemma_esc_all_front(x);
        let n: int = e.len() as int;
        assert(esc_all(x) == e + esc_all(rest));
        assert forall|t: int| 0 <= t < n implies s[i + t] == #[trigger] e[t] by {
            assert(esc_all(x)[t] == e[t]);
        }
        assert forall|t: int| 0 <= t < esc_all(rest).len() implies s[i + n + t] == #[trigger] esc_all(rest)[t] by {
            assert(esc_all(x)[n + t] == esc_all(rest)[t]);
        }
        lemma_p_str_step(s, i, c, acc);
        lemma_p_str_esc(s, i + n, rest, acc.push(c));
        assert(acc.push(c) + rest =~= acc + x);
    }
}

/// A quoted string reads back as the string.
pub proof fn lemma_quote_reads_back(s: Seq<char>, i: int, x: Seq<char>)
    requires
        0 <= i,
        i + quote(x).len() <= s.len(),
        s.subrange(i, i + quote(x).len()) == quote(x),
    ensures
        s[i] == '"',
        p_str(s, i + 1, seq![]) == Some((x, i + quote(x).len())),
{
    let n: int = esc_all(x).len() as int;
    let q = quote(x);
    assert(s[i] == s.subrange(i, i + q.len())[0]);
    assert(s[i + 1 + n] == s.subrange(i, i + q.len())[1 + n]);
    assert forall|t: int| 0 <= t < n implies s[i + 1 + t] == #[trigger] esc_all(x)[t] by {
        assert(s.subrange(i, i + q.len())[1 + t] == q[1 + t]);
    }
    lemma_p_str_esc(s, i + 1, x, seq![]);
    assert(seq![] + x =~= x);
}


/// `s` holds `text` at `i`.
pub open spec fn has_text(s: Seq<char>, i: int, text: Seq<char>) -> bool {
    0 <= i && i + text.len() <= s.len() && forall|t: int| 0 <= t < text.len() ==> s[i + t] == #[trigger] text[t]
}

pub(crate) proof fn lemma_has_text_split(s: Seq<char>, i: int, a: Seq<char>, b: Seq<char>)
    requires
        has_text(s, i, a + b),
    ensures
        has_text(s, i, a),
        has_text(s, i + a.len(), b),
{
    assert forall|t: int| 0 <= t < a.len() implies s[i + t] == #[trigger] a[t] by {
        assert((a + b)[t] == a[t]);
    }
    assert forall|t: int| 0 <= t < b.len() implies s[i + a.len() + t] == #[trigger] b[t] by {
        assert((a + b)[a.len() + t] == b[t]);
    }
}

/// A number text the reader takes as one whole token.
pub open spec fn num_ok(t: Seq<char>) -> bool {
    &&& t.len() > 0
    &&& (t[0] == '-' || is_digit(t[0]))
    &&& forall|j: int| 0 <= j < t.len() ==> #[trigger] is_num_char(t[j])
    &&& is_float_text(t)
}

/// Object keys strictly ascend.
pub open spec fn keys_sorted(m: Seq<(Seq<char>, JsonV)>) -> bool {
    forall|a: int, b: int| 0 <= a < b < m.len() ==> key_lt(#[trigger] m[a].0, #[trigger] m[b].0)
}

/// A value of the shape the library builds and reads: numbers are whole
/// number literals, object keys ascend.
pub open spec fn well_formed(v: JsonV) -> bool
    decreases v, 0nat,
{
    match v {
        JsonV::Num(t) => num_ok(t),
        JsonV::Arr(a) => wf_items(a),
        JsonV::Obj(m) => keys_sorted(m) && wf_members(m),
        _ => true,
    }
}

pub open spec fn wf_items(a: Seq<JsonV>) -> bool
    decreases a, 1nat,
{
    if a.len() == 0 {
        true
    } else {
        wf_items(a.drop_last()) && well_formed(a.last())
    }
}

pub open spec fn wf_members(m: Seq<(Seq<char>, JsonV)>) -> bool
    decreases m, 1nat,
{
    if m.len() == 0 {
        true
    } else {
        wf_members(m.drop_last()) && well_formed(m.last().1)
    }
}

proof fn lemma_wf_items_at(a: Seq<JsonV>, k: int)
    requires
        wf_items(a),
        0 <= k < a.len(),
    ensures
        well_formed(a[k]),
    decreases a.len(),
{
    if k < a.len() - 1 {
        lemma_wf_items_at(a.drop_last(), k);
    }
}

proof fn lemma_wf_members_at(m: Seq<(Seq<char>, JsonV)>, k: int)
    requires
        wf_members(m),
        0 <= k < m.len(),
    ensures
        well_formed(m[k].1),
    decreases m.len(),
{
    if k < m.len() - 1 {
        lemma_wf_members_at(m.drop_last(), k);
    }
}

pub(crate) proof fn lemma_skip_run(s: Seq<char>, i: int, j: int)
    requires
        0 <= i <= j <= s.len(),
        forall|t: int| i <= t < j ==> is_jws(#[trigger] s[t]),
        j == s.len() || !is_jws(s[j]),
    ensures
        skip_ws(s, i) == j,
    decreases j - i,
{
    if i < j {
        lemma_skip_run(s, i + 1, j);
    }
}

proof fn lemma_num_run(s: Seq<char>, a: int, b: int)
    requires
        0 <= a <= b <= s.len(),
        forall|t: int| a <= t < b ==> is_num_char(#[trigger] s[t]),
        b == s.len() || !is_num_char(s[b]),
    ensures
        num_run_end(s, a) == b,
    decreases b - a,
{
    if a < b {
        lemma_num_run(s, a + 1, b);
    }
}

proof fn lemma_nl_ws(ind: Option<nat>, depth: nat)
    ensures
        forall|t: int| 0 <= t < nl(ind, depth).len() ==> is_jws(#[trigger] nl(ind, depth)[t]),
{
    match ind {
        Some(n) => {
            assert forall|t: int| 0 <= t < nl(ind, depth).len() implies is_jws(#[trigger] nl(ind, depth)[t]) by {
                if t > 0 {
                    assert(nl(ind, depth)[t] == spaces((n as nat) * depth)[t - 1]);
                }
            }
        },
        None => {},
    }
}

/// Skipping white space after `p` over a line break lands on `q`.
proof fn lemma_skip_nl(s: Seq<char>, p: int, ind: Option<nat>, depth: nat)
    requires
        has_text(s, p, nl(ind, depth)),
        p + nl(ind, depth).len() < s.len(),
        !is_jws(s[p + nl(ind, depth).len()]),
    ensures
        skip_ws(s, p) == p + nl(ind, depth).len(),
{
    lemma_nl_ws(ind, depth);
    let n = nl(ind, depth);
    assert forall|t: int| p <= t < p + n.len() implies is_jws(#[trigger] s[t]) by {
        assert(s[p + (t - p)] == n[t - p]);
    }
    lemma_skip_run(s, p, p + n.len());
}

/// The first char of a written value starts a value.
proof fn lemma_dump_first(v: JsonV, ind: Option<nat>, depth: nat)
    requires
        well_formed(v),
    ensures
        dump_v(v, ind, depth).len() > 0,
        !is_jws(dump_v(v, ind, depth)[0]),
        dump_v(v, ind, depth)[0] != ']',
        dump_v(v, ind, depth)[0] != '}',
        dump_v(v, ind, depth)[0] != ',',
        !is_num_char(dump_v(v, ind, depth)[0]) ==> !(v is Num),
{
    match v {
        JsonV::Arr(a) => {
            if a.len() > 0 {
                assert(dump_v(v, ind, depth)[0] == '[');
            }
        },
        JsonV::Obj(m) => {
            if m.len() > 0 {
                assert(dump_v(v, ind, depth)[0] == '{');
            }
        },
        JsonV::Str(x) => {
            assert(dump_v(v, ind, depth)[0] == '"');
        },
        _ => {},
    }
}

/// `dump_items` of a prefix is a prefix of `dump_items`.
proof fn lemma_items_prefix(a: Seq<JsonV>, ind: Option<nat>, depth: nat, k: int)
    requires
        0 <= k <= a.len(),
    ensures
        dump_items(a.take(k), ind, depth).len() <= dump_items(a, ind, depth).len(),
        dump_items(a, ind, depth).take(dump_items(a.take(k), ind, depth).len() as int) == dump_items(
            a.take(k),
            ind,
            depth,
        ),
    decreases a.len() - k,
{
    if k == a.len() {
        assert(a.take(k) =~= a);
        assert(dump_items(a, ind, depth).take(dump_items(a, ind, depth).len() as int) =~= dump_items(a, ind, depth));
    } else {
        lemma_items_prefix(a, ind, depth, k + 1);
        let t = a.take(k + 1);
        assert(t.drop_last() =~= a.take(k));
        let pre = dump_items(a.take(k), ind, depth);
        let big = dump_items(t, ind, depth);
        assert(big.take(pre.len() as int) =~= pre);
        assert(dump_items(a, ind, depth).take(pre.len() as int) =~= pre);
    }
}

proof fn lemma_members_prefix(m: Seq<(Seq<char>, JsonV)>, ind: Option<nat>, depth: nat, k: int)
    requires
        0 <= k <= m.len(),
    ensures
        dump_members(m.take(k), ind, depth).len() <= dump_members(m, ind, depth).len(),
        dump_members(m, ind, depth).take(dump_members(m.take(k), ind, depth).len() as int)
            == dump_members(m.take(k), ind, depth),
    decreases m.len() - k,
{
    if k == m.len() {
        assert(m.take(k) =~= m);
        assert(dump_members(m, ind, depth).take(dump_members(m, ind, depth).len() as int) =~= dump_members(
            m,
            ind,
            depth,
        ));
    } else {
        lemma_members_prefix(m, ind, depth, k + 1);
        let t = m.take(k + 1);
        assert(t.drop_last() =~= m.take(k));
        let pre = dump_members(m.take(k), ind, depth);
        let big = dump_members(t, ind, depth);
        assert(big.take(pre.len() as int) =~= pre);
        assert(dump_members(m, ind, depth).take(pre.len() as int) =~= pre);
    }
}

pub(crate) proof fn lemma_has_prefix(s: Seq<char>, i: int, text: Seq<char>, n: int)
    requires
        has_text(s, i, text),
        0 <= n <= text.len(),
    ensures
        has_text(s, i, text.take(n)),
{
    assert forall|t: int| 0 <= t < n implies s[i + t] == #[trigger] text.take(n)[t] by {
        assert(text.take(n)[t] == text[t]);
    }
}

proof fn lemma_ins_pos_end(m: Seq<(Seq<char>, JsonV)>, k: Seq<char>)
    requires
        forall|j: int| 0 <= j < m.len() ==> key_lt(#[trigger] m[j].0, k),
    ensures
        ins_pos(m, k) == m.len(),
    decreases m.len(),
{
    if m.len() > 0 {
        assert(key_lt(m[0].0, k));
        assert forall|j: int| 0 <= j < m.drop_first().len() implies key_lt(#[trigger] m.drop_first()[j].0, k) by {
            assert(m.drop_first()[j] == m[j + 1]);
        }
        lemma_ins_pos_end(m.drop_first(), k);
    }
}


/// A written value reads back as the value, wherever it stands in a text
/// (followed by something that cannot continue a number).
#[verifier::spinoff_prover]
#[verifier::rlimit(40)]
pub(crate) proof fn lemma_value_reads_back(v: JsonV, ind: Option<nat>, depth: nat, s: Seq<char>, i: int)
    requires
        well_formed(v),
        has_text(s, i, dump_v(v, ind, depth)),
        i + dump_v(v, ind, depth).len() == s.len() || !is_num_char(s[i + dump_v(v, ind, depth).len()]),
    ensures
        p_value(s, i) == Some((v, i + dump_v(v, ind, depth).len())),
    decreases v, 0nat, 0int,
{
    let d = dump_v(v, ind, depth);
    lemma_dump_first(v, ind, depth);
    assert(s[i] == d[0]);
    match v {
        JsonV::Null => {
            assert(d =~= lit_null());
            assert(s.subrange(i, i + 4) =~= lit_null());
            assert(has_at(s, i, lit_null()));
            assert(p_value(s, i) == Some((v, i + d.len())));
        },
        JsonV::Bool(b) => {
            if b {
                assert(d =~= lit_true());
                assert(s.subrange(i, i + 4) =~= lit_true());
                assert(has_at(s, i, lit_true()));
            } else {
                assert(d =~= lit_false());
                assert(s.subrange(i, i + 5) =~= lit_false());
                assert(has_at(s, i, lit_false()));
            }
        },
        JsonV::Num(t) => {
            let e = i + t.len();
            assert forall|q: int| i <= q < e implies is_num_char(#[trigger] s[q]) by {
                assert(s[i + (q - i)] == t[q - i]);
            }
            if t[0] == '-' {
                lemma_num_run(s, i + 1, e);
            } else {
                lemma_num_run(s, i, e);
            }
            assert(s.subrange(i, e) =~= t);
            assert(p_value(s, i) == Some((v, i + d.len())));
        },
        JsonV::Str(x) => {
            assert(s.subrange(i, i + d.len()) =~= d);
            lemma_quote_reads_back(s, i, x);
            assert(p_value(s, i) == Some((v, i + d.len())));
        },
        JsonV::Arr(a) => {
            if a.len() == 0 {
                assert(s[i + 1] == d[1]);
                assert(a =~= seq![]);
                assert(skip_ws(s, i + 1) == i + 1);
            } else {
                let body = dump_items(a, ind, depth + 1);
                let tail = nl(ind, depth) + seq![']'];
                assert(d == seq!['['] + (body + tail));
                lemma_has_text_split(s, i, seq!['['], body + tail);
                lemma_items_read_back(a, ind, depth, s, i + 1, 0);
                assert(a.take(0) =~= seq![]);
                assert(p_items(s, i, seq![]) == Some((v, i + d.len())));
                assert(skip_ws(s, i + 1) < s.len() && s[skip_ws(s, i + 1)] != ']');
            }
            assert(p_value(s, i) == Some((v, i + d.len())));
        },
        JsonV::Obj(m) => {
            if m.len() == 0 {
                assert(s[i + 1] == d[1]);
                assert(m =~= seq![]);
                assert(skip_ws(s, i + 1) == i + 1);
            } else {
                let body = dump_members(m, ind, depth + 1);
                let tail = nl(ind, depth) + seq!['}'];
                assert(d == seq!['{'] + (body + tail));
                lemma_has_text_split(s, i, seq!['{'], body + tail);
                lemma_members_read_back(m, ind, depth, s, i + 1, 0);
                assert(m.take(0) =~= seq![]);
                assert(p_members(s, i, seq![]) == Some((v, i + d.len())));
                assert(skip_ws(s, i + 1) < s.len() && s[skip_ws(s, i + 1)] == '"');
            }
            assert(p_value(s, i) == Some((v, i + d.len())));
        },
    }
}

/// The items of a written array read back, from item `k` on.
#[verifier::spinoff_prover]
proof fn lemma_items_read_back(a: Seq<JsonV>, ind: Option<nat>, depth: nat, s: Seq<char>, base: int, k: int)
    requires
        a.len() > 0,
        wf_items(a),
        0 <= k < a.len(),
        base >= 1,
        has_text(s, base, dump_items(a, ind, depth + 1) + (nl(ind, depth) + seq![']'])),
    ensures
        p_items(
            s,
            if k == 0 {
                base - 1
            } else {
                base + dump_items(a.take(k), ind, depth + 1).len()
            },
            a.take(k),
        ) == Some(
            (
                JsonV::Arr(a),
                base + dump_items(a, ind, depth + 1).len() + nl(ind, depth).len() + 1,
            ),
        ),
        k == 0 ==> skip_ws(s, base) < s.len() && s[skip_ws(s, base)] != ']',
    decreases a, 1nat, a.len() - k,
{
    let body = dump_items(a, ind, depth + 1);
    let tail = nl(ind, depth) + seq![']'];
    lemma_has_text_split(s, base, body, tail);
    let pre = dump_items(a.take(k), ind, depth + 1);
    let t = a.take(k + 1);
    assert(t.drop_last() =~= a.take(k));
    assert(t.last() == a[k]);
    let sep: Seq<char> = if k > 0 {
        seq![',']
    } else {
        seq![]
    };
    let item = dump_v(a[k], ind, depth + 1);
    let n1 = nl(ind, depth + 1);
    assert(dump_items(t, ind, depth + 1) == pre + sep + n1 + item);
    lemma_items_prefix(a, ind, depth + 1, k + 1);
    let cur = dump_items(t, ind, depth + 1);
    lemma_has_prefix(s, base, body, cur.len() as int);
    assert(cur == pre + (sep + (n1 + item)));
    lemma_has_text_split(s, base, pre, sep + (n1 + item));
    lemma_has_text_split(s, base + pre.len(), sep, n1 + item);
    lemma_has_text_split(s, base + pre.len() + sep.len(), n1, item);
    let p = if k == 0 {
        base - 1
    } else {
        base + pre.len()
    };
    if k == 0 {
        assert(pre.len() == 0);
    }
    assert(p + 1 == base + pre.len() + sep.len());
    lemma_wf_items_at(a, k);
    lemma_dump_first(a[k], ind, depth + 1);
    let q = p + 1 + n1.len();
    assert(s[q] == item[0]);
    lemma_skip_nl(s, p + 1, ind, depth + 1);
    let j = q + item.len();
    assert(j == base + cur.len());
    if k + 1 < a.len() {
        // the next item's separator follows
        lemma_items_prefix(a, ind, depth + 1, k + 2);
        let t2 = a.take(k + 2);
        assert(t2.drop_last() =~= t);
        let nxt = dump_items(t2, ind, depth + 1);
        assert(nxt == cur + seq![','] + n1 + dump_v(a[k + 1], ind, depth + 1));
        lemma_has_prefix(s, base, body, nxt.len() as int);
        assert(s[base + cur.len()] == nxt[cur.len() as int]);
        assert(s[j] == ',');
        lemma_value_reads_back(a[k], ind, depth + 1, s, q);
        lemma_skip_run(s, j, j);
        lemma_items_read_back(a, ind, depth, s, base, k + 1);
        assert(a.take(k).push(a[k]) =~= t);
    } else {
        assert(t =~= a);
        assert(cur == body);
        assert(s[j] == tail[0]);
        lemma_value_reads_back(a[k], ind, depth + 1, s, q);
        let n0 = nl(ind, depth);
        lemma_has_text_split(s, j, n0, seq![']']);
        assert(s[j + n0.len() + 0] == seq![']'][0]);
        lemma_skip_nl(s, j, ind, depth);
        assert(a.take(k).push(a[k]) =~= a);
    }
}

/// In an object with ascending keys, member `k` goes after the ones before it.
proof fn lemma_member_at_end(m: Seq<(Seq<char>, JsonV)>, k: int)
    requires
        keys_sorted(m),
        0 <= k < m.len(),
    ensures
        obj_insert(m.take(k), m[k].0, m[k].1) == m.take(k + 1),
{
    assert forall|x: int| 0 <= x < m.take(k).len() implies key_lt(#[trigger] m.take(k)[x].0, m[k].0) by {
        assert(m.take(k)[x] == m[x]);
    }
    lemma_ins_pos_end(m.take(k), m[k].0);
    assert(obj_insert(m.take(k), m[k].0, m[k].1) =~= m.take(k + 1));
}

/// The members of a written object read back, from member `k` on.
#[verifier::rlimit(100)]
#[verifier::spinoff_prover]
proof fn lemma_members_read_back(
    m: Seq<(Seq<char>, JsonV)>,
    ind: Option<nat>,
    depth: nat,
    s: Seq<char>,
    base: int,
    k: int,
)
    requires
        m.len() > 0,
        keys_sorted(m),
        wf_members(m),
        0 <= k < m.len(),
        base >= 1,
        has_text(s, base, dump_members(m, ind, depth + 1) + (nl(ind, depth) + seq!['}'])),
    ensures
        p_members(
            s,
            if k == 0 {
                base - 1
            } else {
                base + dump_members(m.take(k), ind, depth + 1).len()
            },
            m.take(k),
        ) == Some(
            (
                JsonV::Obj(m),
                base + dump_members(m, ind, depth + 1).len() + nl(ind, depth).len() + 1,
            ),
        ),
        k == 0 ==> skip_ws(s, base) < s.len() && s[skip_ws(s, base)] == '"',
    decreases m, 1nat, m.len() - k,
{
    let body = dump_members(m, ind, depth + 1);
    let tail = nl(ind, depth) + seq!['}'];
    lemma_has_text_split(s, base, body, tail);
    let pre = dump_members(m.take(k), ind, depth + 1);
    let t = m.take(k + 1);
    assert(t.drop_last() =~= m.take(k));
    assert(t.last() == m[k]);
    let sep: Seq<char> = if k > 0 {
        seq![',']
    } else {
        seq![]
    };
    let sp: Seq<char> = if ind is Some {
        seq![' ']
    } else {
        seq![]
    };
    let kq = quote(m[k].0);
    let item = dump_v(m[k].1, ind, depth + 1);
    let n1 = nl(ind, depth + 1);
    assert(dump_members(t, ind, depth + 1) == pre + sep + n1 + kq + seq![':'] + sp + item);
    lemma_members_prefix(m, ind, depth + 1, k + 1);
    let cur = dump_members(t, ind, depth + 1);
    lemma_has_prefix(s, base, body, cur.len() as int);
    assert(cur == pre + (sep + (n1 + (kq + (seq![':'] + (sp + item))))));
    lemma_has_text_split(s, base, pre, sep + (n1 + (kq + (seq![':'] + (sp + item)))));
    let b1 = base + pre.len();
    lemma_has_text_split(s, b1, sep, n1 + (kq + (seq![':'] + (sp + item))));
    let b2 = b1 + sep.len();
    lemma_has_text_split(s, b2, n1, kq + (seq![':'] + (sp + item)));
    let b3 = b2 + n1.len();
    lemma_has_text_split(s, b3, kq, seq![':'] + (sp + item));
    let b4 = b3 + kq.len();
    lemma_has_text_split(s, b4, seq![':'], sp + item);
    let b5 = b4 + 1;
    lemma_has_text_split(s, b5, sp, item);
    let q = b5 + sp.len();
    let p = if k == 0 {
        base - 1
    } else {
        base + pre.len()
    };
    if k == 0 {
        assert(pre.len() == 0);
    }
    assert(p + 1 == b2);
    // the key
    assert(s[b3] == kq[0]);
    assert(kq[0] == '"');
    lemma_skip_nl(s, b2, ind, depth + 1);
    assert(s.subrange(b3, b3 + kq.len()) =~= kq);
    lemma_quote_reads_back(s, b3, m[k].0);
    assert(s[b4 + 0] == seq![':'][0]);
    lemma_skip_run(s, b4, b4);
    // the value
    lemma_wf_members_at(m, k);
    lemma_dump_first(m[k].1, ind, depth + 1);
    assert(s[q] == item[0]);
    if ind is Some {
        assert(s[b5 + 0] == sp[0]);
        lemma_skip_run(s, b5, b5 + 1);
    } else {
        lemma_skip_run(s, b5, b5);
    }
    let j = q + item.len();
    assert(j == base + cur.len());
    // the member goes at the end of what was read
    lemma_member_at_end(m, k);
    if k + 1 < m.len() {
        lemma_members_prefix(m, ind, depth + 1, k + 2);
        let t2 = m.take(k + 2);
        assert(t2.drop_last() =~= t);
        let nxt = dump_members(t2, ind, depth + 1);
        assert(nxt == cur + seq![','] + n1 + quote(m[k + 1].0) + seq![':'] + sp + dump_v(m[k + 1].1, ind, depth + 1));
        lemma_has_prefix(s, base, body, nxt.len() as int);
        assert(s[base + cur.len()] == nxt[cur.len() as int]);
        assert(s[j] == ',');
        lemma_value_reads_back(m[k].1, ind, depth + 1, s, q);
        lemma_skip_run(s, j, j);
        lemma_members_read_back(m, ind, depth, s, base, k + 1);
    } else {
        assert(t =~= m);
        assert(cur == body);
        assert(s[j] == tail[0]);
        lemma_value_reads_back(m[k].1, ind, depth + 1, s, q);
        let n0 = nl(ind, depth);
        lemma_has_text_split(s, j, n0, seq!['}']);
        assert(s[j + n0.len() + 0] == seq!['}'][0]);
        lemma_skip_nl(s, j, ind, depth);
    }
}

/// What `dump` or `pretty` writes, `parse` reads back as the same value
/// (for values whose numbers are number literals and whose object keys
/// ascend, as everything the library builds or reads).
pub proof fn lemma_dump_parses_back(v: JsonV, ind: Option<nat>)
    requires
        well_formed(v),
    ensures
        parse_spec(dump_v(v, ind, 0)) == Some(v),
{
    let d = dump_v(v, ind, 0);
    lemma_dump_first(v, ind, 0);
    lemma_skip_run(d, 0, 0);
    lemma_value_reads_back(v, ind, 0, d, 0);
    lemma_skip_run(d, d.len() as int, d.len() as int);
}


/// Escaped text holds no line break and no carriage return.
pub proof fn lemma_esc_clean(x: Seq<char>)
    ensures
        forall|t: int| 0 <= t < esc_all(x).len() ==> #[trigger] esc_all(x)[t] != '\n' && esc_all(x)[t] != '\r',
    decreases x.len(),
{
    if x.len() > 0 {
        lemma_esc_clean(x.drop_last());
        let c = x.last();
        let e = esc_char(c);
        let pre = esc_all(x.drop_last());
        assert(esc_all(x) == pre + e);
        if (c as u32) < 0x20 && !(c == '"' || c == '\\' || c == '\n' || c == '\r' || c == '\t') {
            let v = c as u32;
            let t = seq!['0', '1', '2', '3', '4', '5', '6', '7', '8', '9', 'a', 'b', 'c', 'd', 'e', 'f'];
            assert(hex_digit((v / 16) as int) == t[(v / 16) as int]);
            assert(hex_digit((v % 16) as int) == t[(v % 16) as int]);
            assert forall|q: int| 0 <= q < 16 implies t[q] != '\n' && t[q] != '\r' by {}
        }
        assert forall|t: int| 0 <= t < esc_all(x).len() implies #[trigger] esc_all(x)[t] != '\n' && esc_all(x)[t]
            != '\r' by {
            if t < pre.len() {
                assert(esc_all(x)[t] == pre[t]);
            } else {
                assert(esc_all(x)[t] == e[t - pre.len()]);
            }
        }
    }
}

/// `key_lt` never holds of a text and itself.
pub proof fn lemma_key_lt_irrefl(a: Seq<char>)
    ensures
        !key_lt(a, a),
    decreases a.len(),
{
    if a.len() > 0 {
        lemma_key_lt_irrefl(a.drop_first());
    }
}

/// `key_lt` is transitive.
pub proof fn lemma_key_lt_trans(a: Seq<char>, b: Seq<char>, c: Seq<char>)
    requires
        key_lt(a, b),
        key_lt(b, c),
    ensures
        key_lt(a, c),
    decreases a.len(),
{
    if a.len() > 0 && b.len() > 0 && c.len() > 0 && a[0] == b[0] && b[0] == c[0] {
        lemma_key_lt_trans(a.drop_first(), b.drop_first(), c.drop_first());
    }
}

proof fn lemma_char_u32(a: char, b: char)
    requires
        a != b,
    ensures
        (a as u32) != (b as u32),
{
}

/// `key_lt` orders any two different texts.
pub(crate) proof fn lemma_key_lt_total(a: Seq<char>, b: Seq<char>)
    requires
        a != b,
    ensures
        key_lt(a, b) || key_lt(b, a),
    decreases a.len(),
{
    if a.len() > 0 && b.len() > 0 && a[0] == b[0] {
        if a.drop_first() == b.drop_first() {
            assert(a =~= seq![a[0]] + a.drop_first());
            assert(b =~= seq![b[0]] + b.drop_first());
        }
        lemma_key_lt_total(a.drop_first(), b.drop_first());
    } else if a.len() == 0 && b.len() == 0 {
        assert(a =~= b);
    } else if a.len() > 0 && b.len() > 0 {
        lemma_char_u32(a[0], b[0]);
    }
}


/// Where `ins_pos` stops in members whose keys ascend: every key before it
/// sorts before `k`, the one at it does not.
proof fn lemma_ins_pos(m: Seq<(Seq<char>, JsonV)>, k: Seq<char>)
    requires
        keys_sorted(m),
    ensures
        0 <= ins_pos(m, k) <= m.len(),
        forall|j: int| 0 <= j < ins_pos(m, k) ==> key_lt(#[trigger] m[j].0, k),
        ins_pos(m, k) < m.len() ==> !key_lt(m[ins_pos(m, k)].0, k),
    decreases m.len(),
{
    if m.len() > 0 && key_lt(m[0].0, k) {
        let t = m.drop_first();
        assert forall|a: int, b: int| 0 <= a < b < t.len() implies key_lt(#[trigger] t[a].0, #[trigger] t[b].0) by {
            assert(t[a] == m[a + 1] && t[b] == m[b + 1]);
        }
        lemma_ins_pos(t, k);
        assert forall|j: int| 0 <= j < ins_pos(m, k) implies key_lt(#[trigger] m[j].0, k) by {
            if j > 0 {
                assert(m[j] == t[j - 1]);
            }
        }
        if ins_pos(m, k) < m.len() {
            assert(m[ins_pos(m, k)] == t[ins_pos(t, k)]);
        }
    }
}

/// In members whose keys ascend, each member's key looks up its value.
proof fn lemma_sorted_get(m: Seq<(Seq<char>, JsonV)>, i: int)
    requires
        keys_sorted(m),
        0 <= i < m.len(),
    ensures
        members_get(m, m[i].0) == Some(m[i].1),
    decreases i,
{
    if i > 0 {
        let t = m.drop_first();
        assert(key_lt(m[0].0, m[i].0));
        lemma_key_lt_irrefl(m[i].0);
        assert forall|a: int, b: int| 0 <= a < b < t.len() implies key_lt(#[trigger] t[a].0, #[trigger] t[b].0) by {
            assert(t[a] == m[a + 1] && t[b] == m[b + 1]);
        }
        assert(t[i - 1] == m[i]);
        lemma_sorted_get(t, i - 1);
    }
}

/// A key that no member has looks up nothing.
proof fn lemma_get_absent(m: Seq<(Seq<char>, JsonV)>, k: Seq<char>)
    requires
        forall|j: int| 0 <= j < m.len() ==> (#[trigger] m[j]).0 != k,
    ensures
        members_get(m, k) is None,
    decreases m.len(),
{
    if m.len() > 0 {
        let t = m.drop_first();
        assert forall|j: int| 0 <= j < t.len() implies (#[trigger] t[j]).0 != k by {
            assert(t[j] == m[j + 1]);
        }
        assert(m[0].0 != k);
        lemma_get_absent(t, k);
    }
}

/// After an ordered-map insert into members whose keys ascend, the
/// inserted key looks up the inserted value and every other key what it
/// looked up before.
pub proof fn lemma_obj_insert_get(m: Seq<(Seq<char>, JsonV)>, k: Seq<char>, v: JsonV, k2: Seq<char>)
    requires
        keys_sorted(m),
    ensures
        members_get(obj_insert(m, k, v), k2) == (if k2 == k {
            Some(v)
        } else {
            members_get(m, k2)
        }),
{
    lemma_ins_pos(m, k);
    lemma_obj_insert_sorted(m, k, v);
    let p = ins_pos(m, k);
    let r = obj_insert(m, k, v);
    assert(r[p] == (k, v));
    if k2 == k {
        lemma_sorted_get(r, p);
    } else if exists|i: int| 0 <= i < m.len() && (#[trigger] m[i]).0 == k2 {
        let i = choose|i: int| 0 <= i < m.len() && (#[trigger] m[i]).0 == k2;
        lemma_sorted_get(m, i);
        let j = if p < m.len() && m[p].0 == k {
            i
        } else if i < p {
            i
        } else {
            i + 1
        };
        assert(r[j] == m[i]);
        lemma_sorted_get(r, j);
    } else {
        assert forall|j: int| 0 <= j < r.len() implies (#[trigger] r[j]).0 != k2 by {
            if r[j] != (k, v) {
                assert(m.contains(r[j]));
                let q = choose|q: int| 0 <= q < m.len() && m[q] == r[j];
                assert(m[q].0 != k2);
            }
        }
        lemma_get_absent(m, k2);
        lemma_get_absent(r, k2);
    }
}

/// Inserting a member into members whose keys ascend keeps them ascending.
pub(crate) proof fn lemma_obj_insert_sorted(m: Seq<(Seq<char>, JsonV)>, k: Seq<char>, v: JsonV)
    requires
        keys_sorted(m),
    ensures
        keys_sorted(obj_insert(m, k, v)),
        forall|j: int| 0 <= j < obj_insert(m, k, v).len() ==> (#[trigger] obj_insert(m, k, v)[j] == (k, v)
            || m.contains(obj_insert(m, k, v)[j])),
{
    lemma_ins_pos(m, k);
    let p = ins_pos(m, k);
    let r = obj_insert(m, k, v);
    if p < m.len() && m[p].0 == k {
        assert forall|a: int, b: int| 0 <= a < b < r.len() implies key_lt(#[trigger] r[a].0, #[trigger] r[b].0) by {
            assert(r[a].0 == m[a].0 && r[b].0 == m[b].0);
        }
        assert forall|j: int| 0 <= j < r.len() implies (#[trigger] r[j] == (k, v) || m.contains(r[j])) by {
            if j != p {
                assert(r[j] == m[j]);
            }
        }
    } else {
        if p < m.len() {
            lemma_key_lt_total(m[p].0, k);
        }
        assert forall|a: int, b: int| 0 <= a < b < r.len() implies key_lt(#[trigger] r[a].0, #[trigger] r[b].0) by {
            if b < p {
                assert(r[a] == m[a] && r[b] == m[b]);
            } else if b == p {
                assert(r[a] == m[a]);
            } else if a < p {
                assert(r[a] == m[a] && r[b] == m[b - 1]);
            } else if a == p {
                assert(r[b] == m[b - 1]);
                if b - 1 > p {
                    lemma_key_lt_trans(k, m[p].0, m[b - 1].0);
                }
            } else {
                assert(r[a] == m[a - 1] && r[b] == m[b - 1]);
            }
        }
        assert forall|j: int| 0 <= j < r.len() implies (#[trigger] r[j] == (k, v) || m.contains(r[j])) by {
            if j < p {
                assert(r[j] == m[j]);
            } else if j > p {
                assert(r[j] == m[j - 1]);
            }
        }
    }
}

proof fn lemma_wf_items_all(a: Seq<JsonV>)
    requires
        forall|q: int| 0 <= q < a.len() ==> well_formed(#[trigger] a[q]),
    ensures
        wf_items(a),
    decreases a.len(),
{
    if a.len() > 0 {
        let t = a.drop_last();
        assert forall|q: int| 0 <= q < t.len() implies well_formed(#[trigger] t[q]) by {
            assert(t[q] == a[q]);
        }
        lemma_wf_items_all(t);
    }
}

proof fn lemma_wf_members_all(m: Seq<(Seq<char>, JsonV)>)
    requires
        forall|q: int| 0 <= q < m.len() ==> well_formed(#[trigger] m[q].1),
    ensures
        wf_members(m),
    decreases m.len(),
{
    if m.len() > 0 {
        let t = m.drop_last();
        assert forall|q: int| 0 <= q < t.len() implies well_formed(#[trigger] t[q].1) by {
            assert(t[q] == m[q]);
        }
        lemma_wf_members_all(t);
    }
}

proof fn lemma_num_run_chars(s: Seq<char>, a: int)
    requires
        0 <= a <= s.len(),
    ensures
        a <= num_run_end(s, a) <= s.len(),
        forall|q: int| a <= q < num_run_end(s, a) ==> is_num_char(#[trigger] s[q]),
    decreases s.len() - a,
{
    if a < s.len() && is_num_char(s[a]) {
        lemma_num_run_chars(s, a + 1);
    }
}

/// A value the reader finds is well formed.
proof fn lemma_p_value_wf(s: Seq<char>, i: int)
    ensures
        p_value(s, i) matches Some((v, _)) ==> well_formed(v),
    decreases s.len() - i, 2nat,
{
    if 0 <= i < s.len() {
        let c = s[i];
        if c == '{' {
            lemma_p_members_wf(s, i, seq![]);
        } else if c == '[' {
            lemma_p_items_wf(s, i, seq![]);
        } else if c == '-' || is_digit(c) {
            let j = num_end(s, i);
            if s[i] == '-' {
                lemma_num_run_chars(s, i + 1);
            } else {
                lemma_num_run_chars(s, i);
            }
            let t = s.subrange(i, j);
            if is_float_text(t) {
                if t.len() == 0 {
                    assert(digits_end(t, 0) == 0);
                }
                assert(t[0] == c);
                assert forall|q: int| 0 <= q < t.len() implies #[trigger] is_num_char(t[q]) by {
                    assert(t[q] == s[i + q]);
                }
            }
        }
    }
}

/// The array the reader finds after items that are well formed is well formed.
proof fn lemma_p_items_wf(s: Seq<char>, i: int, acc: Seq<JsonV>)
    requires
        forall|q: int| 0 <= q < acc.len() ==> well_formed(#[trigger] acc[q]),
    ensures
        p_items(s, i, acc) matches Some((v, _)) ==> well_formed(v),
    decreases s.len() - i, 0nat,
{
    if 0 <= i < s.len() {
        lemma_skip_ws(s, i + 1);
        let st = skip_ws(s, i + 1);
        lemma_p_value_wf(s, st);
        if let Some((v, j)) = p_value(s, st) {
            if j > i {
                lemma_skip_ws(s, j);
                let k = skip_ws(s, j);
                let a2 = acc.push(v);
                assert forall|q: int| 0 <= q < a2.len() implies well_formed(#[trigger] a2[q]) by {
                    if q < acc.len() {
                        assert(a2[q] == acc[q]);
                    }
                }
                if k < s.len() && s[k] == ',' {
                    lemma_p_items_wf(s, k, a2);
                } else {
                    lemma_wf_items_all(a2);
                }
            }
        }
    }
}

/// The object the reader finds after members that are well formed, with
/// ascending keys, is well formed.
proof fn lemma_p_members_wf(s: Seq<char>, i: int, acc: Seq<(Seq<char>, JsonV)>)
    requires
        keys_sorted(acc),
        forall|q: int| 0 <= q < acc.len() ==> well_formed(#[trigger] acc[q].1),
    ensures
        p_members(s, i, acc) matches Some((v, _)) ==> well_formed(v),
    decreases s.len() - i, 0nat,
{
    if 0 <= i < s.len() {
        lemma_skip_ws(s, i + 1);
        let k = skip_ws(s, i + 1);
        if k < s.len() && s[k] == '"' {
            lemma_p_str_advances(s, k + 1, seq![]);
            if let Some((key, j1)) = p_str(s, k + 1, seq![]) {
                lemma_skip_ws(s, j1);
                let k2 = skip_ws(s, j1);
                if k2 < s.len() && s[k2] == ':' {
                    lemma_skip_ws(s, k2 + 1);
                    let st = skip_ws(s, k2 + 1);
                    lemma_p_value_wf(s, st);
                    if let Some((v, j2)) = p_value(s, st) {
                        if j2 > i {
                            lemma_skip_ws(s, j2);
                            let k3 = skip_ws(s, j2);
                            let m = obj_insert(acc, key, v);
                            lemma_obj_insert_sorted(acc, key, v);
                            assert forall|q: int| 0 <= q < m.len() implies well_formed(#[trigger] m[q].1) by {
                                if m[q] != (key, v) {
                                    assert(acc.contains(m[q]));
                                    let w = choose|w: int| 0 <= w < acc.len() && acc[w] == m[q];
                                    assert(well_formed(acc[w].1));
                                }
                            }
                            if k3 < s.len() && s[k3] == ',' {
                                lemma_p_members_wf(s, k3, m);
                            } else {
                                lemma_wf_members_all(m);
                            }
                        }
                    }
                }
            }
        }
    }
}

/// Every value the reader returns is well formed: object keys ascend with
/// none twice, and numbers are whole number literals.
pub proof fn lemma_parse_well_formed(s: Seq<char>)
    ensures
        parse_spec(s) matches Some(v) ==> well_formed(v),
{
    lemma_p_value_wf(s, skip_ws(s, 0));
}

/// Whatever the reader returns is written out, compact or indented, as a
/// text that reads back as the same value.
pub proof fn lemma_parse_dump_parse(s: Seq<char>, ind: Option<nat>)
    ensures
        parse_spec(s) matches Some(v) ==> parse_spec(dump_v(v, ind, 0)) == Some(v),
{
    lemma_parse_well_formed(s);
    if let Some(v) = parse_spec(s) {
        lemma_dump_parses_back(v, ind);
    }
}

} // verus!
