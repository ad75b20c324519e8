//! Timestamps and slugs.

use vstd::prelude::*;
use crate::text::{chars_of, string_of, string_of_range};
use crate::json::{key_lt, lemma_key_lt_irrefl};

verus! {

/// Euclidean quotient and remainder of `a` by a positive `b`.
fn div_rem_euclid(a: i128, b: i128) -> (r: (i128, i128))
    requires
        0 < b <= 1_000_000,
        -1_000_000_000_000_000_000_000i128 <= a <= 1_000_000_000_000_000_000_000i128,
    ensures
        r.0 == a / b,
        r.1 == a % b,
        0 <= r.1 < b,
        a == r.0 * b + r.1,
{
    if a >= 0 {
        let q = a / b;
        let m = a % b;
        assert(a == q * b + m) by (nonlinear_arith)
            requires q == a / b, m == a % b, b > 0, a >= 0;
        (q, m)
    } else {
        let na = -a;
        let q0 = na / b;
        let m0 = na % b;
        assert(na == q0 * b + m0 && 0 <= m0 < b) by (nonlinear_arith)
            requires q0 == na / b, m0 == na % b, b > 0, na > 0;
        if m0 == 0 {
            proof {
                assert(a == (-q0) * b) by (nonlinear_arith)
                    requires na == q0 * b + m0, m0 == 0, na == -a;
                assert(a / b == -q0 && a % b == 0) by (nonlinear_arith)
                    requires a == (-q0) * b, b > 0;
            }
            (-q0, 0)
        } else {
            proof {
                assert(a == (-q0 - 1) * b + (b - m0)) by (nonlinear_arith)
                    requires na == q0 * b + m0, na == -a;
                assert(a / b == -q0 - 1 && a % b == b - m0) by (nonlinear_arith)
                    requires a == (-q0 - 1) * b + (b - m0), b > 0, 0 < b - m0 < b;
            }
            (-q0 - 1, b - m0)
        }
    }
}


/// The decimal digit for `d` (0..=9).
pub open spec fn digit_char(d: int) -> char {
    seq!['0', '1', '2', '3', '4', '5', '6', '7', '8', '9'][d]
}

/// Decimal digits of a natural number, most significant first.
pub open spec fn dec(n: nat) -> Seq<char>
    decreases n,
{
    if n < 10 {
        seq![digit_char(n as int)]
    } else {
        dec(n / 10).push(digit_char((n % 10) as int))
    }
}

/// `k` zeros.
pub open spec fn zeros(k: int) -> Seq<char> {
    Seq::new(if k > 0 { k as nat } else { 0 }, |i: int| '0')
}

/// `x` in decimal, zero-padded to `w` chars after a leading `-` for
/// negative numbers (the `{:0w}` format).
pub open spec fn padded(x: int, w: int) -> Seq<char> {
    if x < 0 {
        seq!['-'] + zeros(w - 1 - dec((-x) as nat).len()) + dec((-x) as nat)
    } else {
        zeros(w - dec(x as nat).len()) + dec(x as nat)
    }
}

/// Civil date and time of day of a UNIX timestamp:
/// (year, month, day, hour, minute, second), proleptic Gregorian, UTC.
pub open spec fn civil(secs: int) -> (int, int, int, int, int, int) {
    let days = secs / 86400;
    let rem = secs % 86400;
    let z = days + 719468;
    let era = z / 146097;
    let doe = z % 146097;
    let yoe = (doe - doe / 1460 + doe / 36524 - doe / 146096) / 365;
    let doy = doe - (365 * yoe + yoe / 4 - yoe / 100);
    let mp = (5 * doy + 2) / 153;
    let d = doy - (153 * mp + 2) / 5 + 1;
    let mth = if mp < 10 {
        mp + 3
    } else {
        mp - 9
    };
    let y = yoe + era * 400 + if mth <= 2 {
        1int
    } else {
        0int
    };
    (y, mth, d, rem / 3600, (rem % 3600) / 60, rem % 60)
}

/// `YYYY-MM-DDTHH:MM:SSZ` for the given fields.
pub open spec fn iso_text(f: (int, int, int, int, int, int)) -> Seq<char> {
    padded(f.0, 4) + seq!['-'] + padded(f.1, 2) + seq!['-'] + padded(f.2, 2) + seq!['T']
        + padded(f.3, 2) + seq![':'] + padded(f.4, 2) + seq![':'] + padded(f.5, 2) + seq!['Z']
}

fn digit(d: u128) -> (c: char)
    requires
        d < 10,
    ensures
        c == digit_char(d as int),
{
    if d == 0 { '0' }
    else if d == 1 { '1' }
    else if d == 2 { '2' }
    else if d == 3 { '3' }
    else if d == 4 { '4' }
    else if d == 5 { '5' }
    else if d == 6 { '6' }
    else if d == 7 { '7' }
    else if d == 8 { '8' }
    else { '9' }
}

/// Appends the decimal digits of `n`.
pub fn push_dec(out: &mut Vec<char>, n: u128)
    ensures
        final(out)@ == old(out)@ + dec(n as nat),
    decreases n,
{
    if n >= 10 {
        push_dec(out, n / 10);
    }
    out.push(digit(n % 10));
    proof {
        if n >= 10 {
            assert(out@ =~= old(out)@ + dec(n as nat));
        } else {
            assert(out@ =~= old(out)@ + dec(n as nat));
        }
    }
}

/// Appends `x` in decimal, zero-padded to `w` chars (the `{:0w}` format).
pub fn push_padded(out: &mut Vec<char>, x: i128, w: usize)
    requires
        x > i128::MIN,
        w <= 64,
    ensures
        final(out)@ == old(out)@ + padded(x as int, w as int),
{
    let mut digits: Vec<char> = Vec::new();
    let neg = x < 0;
    let mag: u128 = if neg { (-x) as u128 } else { x as u128 };
    push_dec(&mut digits, mag);
    assert(digits@ =~= dec(mag as nat));
    let room: usize = if neg { if w >= 1 { w - 1 } else { 0 } } else { w };
    let ghost start = out@;
    if neg {
        out.push('-');
    }
    let mut k: usize = digits.len();
    let ghost zs: Seq<char> = zeros(room - digits@.len());
    let ghost mut done: int = 0;
    while k < room
        invariant
            k <= room || k == digits.len(),
            room <= 64,
            zs == zeros(room - digits@.len()),
            done == k - digits.len(),
            k >= digits.len(),
            out@ == (if neg { start.push('-') } else { start }) + zeros(done),
        decreases room - k,
    {
        out.push('0');
        proof {
            assert(zeros(done) .push('0') =~= zeros(done + 1));
            done = done + 1;
        }
        k = k + 1;
    }
    proof {
        assert(zeros(done) =~= zs);
    }
    let ghost before = out@;
    crate::text::extend_chars(out, digits.as_slice());
    proof {
        if neg {
            assert(out@ =~= start + padded(x as int, w as int));
        } else {
            assert(out@ =~= start + padded(x as int, w as int));
        }
    }
}


/// The fields of `civil(secs)`.
#[verifier::spinoff_prover]
fn civil_fields(secs: i64) -> (r: (i128, i128, i128, i128, i128, i128))
    ensures
        (r.0 as int, r.1 as int, r.2 as int, r.3 as int, r.4 as int, r.5 as int) == civil(
            secs as int,
        ),
        -1_000_000_000_000i128 <= r.0 <= 1_000_000_000_000i128,
        0 <= r.1 <= 100,
        -100 <= r.2 <= 100,
        0 <= r.3 < 100,
        0 <= r.4 < 100,
        0 <= r.5 < 100,
{
    let a = secs as i128;
    let (days, rem) = div_rem_euclid(a, 86400);
    let h = rem / 3600;
    let m = (rem % 3600) / 60;
    let s = rem % 60;
    assert(-200_000_000_000_000i128 <= days <= 200_000_000_000_000i128);
    let z = days + 719468;
    let (era, doe) = div_rem_euclid(z, 146097);
    assert(-2_000_000_000i128 <= era <= 2_000_000_000i128);
    let yoe = (doe - doe / 1460 + doe / 36524 - doe / 146096) / 365;
    let doy = doe - (365 * yoe + yoe / 4 - yoe / 100);
    let mp = (5 * doy + 2) / 153;
    let d = doy - (153 * mp + 2) / 5 + 1;
    let mth = if mp < 10 { mp + 3 } else { mp - 9 };
    let y = yoe + era * 400 + if mth <= 2 { 1 } else { 0 };
    (y, mth, d, h, m, s)
}

/// ISO-8601 `YYYY-MM-DDTHH:MM:SSZ` of a UNIX timestamp (UTC, proleptic
/// Gregorian calendar; civil-from-days after Howard Hinnant).
pub fn iso_from_unix(secs: i64) -> (r: String)
    ensures
        r@ == iso_text(civil(secs as int)),
{
    let (y, mth, d, h, m, s) = civil_fields(secs);
    let mut out: Vec<char> = Vec::new();
    push_padded(&mut out, y, 4);
    out.push('-');
    push_padded(&mut out, mth, 2);
    out.push('-');
    push_padded(&mut out, d, 2);
    out.push('T');
    push_padded(&mut out, h, 2);
    out.push(':');
    push_padded(&mut out, m, 2);
    out.push(':');
    push_padded(&mut out, s, 2);
    out.push('Z');
    assert(out@ =~= iso_text(civil(secs as int)));
    string_of(out.as_slice())
}


/// Czech letters with diacritics folded to their base ASCII letter; other
/// chars unchanged.
pub open spec fn fold_diacritic(c: char) -> char {
    match c {
        'á' | 'ä' => 'a',
        'č' => 'c',
        'ď' => 'd',
        'é' | 'ě' => 'e',
        'í' => 'i',
        'ĺ' | 'ľ' => 'l',
        'ň' => 'n',
        'ó' | 'ô' | 'ö' => 'o',
        'ř' | 'ŕ' => 'r',
        'š' => 's',
        'ť' => 't',
        'ú' | 'ů' | 'ü' => 'u',
        'ý' => 'y',
        'ž' => 'z',
        'Á' | 'Ä' => 'A',
        'Č' => 'C',
        'Ď' => 'D',
        'É' | 'Ě' => 'E',
        'Í' => 'I',
        'Ĺ' | 'Ľ' => 'L',
        'Ň' => 'N',
        'Ó' | 'Ô' | 'Ö' => 'O',
        'Ř' | 'Ŕ' => 'R',
        'Š' => 'S',
        'Ť' => 'T',
        'Ú' | 'Ů' | 'Ü' => 'U',
        'Ý' => 'Y',
        'Ž' => 'Z',
        _ => c,
    }
}

fn fold_diacritic_exec(c: char) -> (r: char)
    ensures
        r == fold_diacritic(c),
{
    match c {
        'á' | 'ä' => 'a',
        'č' => 'c',
        'ď' => 'd',
        'é' | 'ě' => 'e',
        'í' => 'i',
        'ĺ' | 'ľ' => 'l',
        'ň' => 'n',
        'ó' | 'ô' | 'ö' => 'o',
        'ř' | 'ŕ' => 'r',
        'š' => 's',
        'ť' => 't',
        'ú' | 'ů' | 'ü' => 'u',
        'ý' => 'y',
        'ž' => 'z',
        'Á' | 'Ä' => 'A',
        'Č' => 'C',
        'Ď' => 'D',
        'É' | 'Ě' => 'E',
        'Í' => 'I',
        'Ĺ' | 'Ľ' => 'L',
        'Ň' => 'N',
        'Ó' | 'Ô' | 'Ö' => 'O',
        'Ř' | 'Ŕ' => 'R',
        'Š' => 'S',
        'Ť' => 'T',
        'Ú' | 'Ů' | 'Ü' => 'U',
        'Ý' => 'Y',
        'Ž' => 'Z',
        _ => c,
    }
}

/// ASCII upper-case letters mapped to lower case; other chars unchanged.
pub open spec fn ascii_lower(c: char) -> char {
    if 'A' <= c && c <= 'Z' {
        ((c as u32) + 32) as char
    } else {
        c
    }
}

pub fn ascii_lower_exec(c: char) -> (r: char)
    ensures
        r == ascii_lower(c),
{
    if 'A' <= c && c <= 'Z' {
        ((c as u8) + 32) as char
    } else {
        c
    }
}

/// A char kept in a slug.
pub open spec fn is_slug_char(c: char) -> bool {
    ('a' <= c && c <= 'z') || ('0' <= c && c <= '9')
}

/// Scans a title left to right: kept chars are copied, every run of other
/// chars becomes one `-` (none at the start). Returns the text and whether
/// it ends in such a `-` (or is empty).
pub open spec fn slug_scan(cs: Seq<char>) -> (Seq<char>, bool)
    decreases cs.len(),
{
    if cs.len() == 0 {
        (seq![], true)
    } else {
        let (o, dash) = slug_scan(cs.drop_last());
        let c = ascii_lower(fold_diacritic(cs.last()));
        if is_slug_char(c) {
            (o.push(c), false)
        } else if !dash {
            (o.push('-'), true)
        } else {
            (o, dash)
        }
    }
}

/// `s` without leading `-`.
pub open spec fn trim_dash_start(s: Seq<char>) -> Seq<char>
    decreases s.len(),
{
    if s.len() > 0 && s[0] == '-' {
        trim_dash_start(s.drop_first())
    } else {
        s
    }
}

/// `s` without trailing `-`.
pub open spec fn trim_dash_end(s: Seq<char>) -> Seq<char>
    decreases s.len(),
{
    if s.len() > 0 && s.last() == '-' {
        trim_dash_end(s.drop_last())
    } else {
        s
    }
}

pub open spec fn untitled() -> Seq<char> {
    seq!['u', 'n', 't', 'i', 't', 'l', 'e', 'd']
}

/// The file-name slug of a title.
pub open spec fn slug(title: Seq<char>) -> Seq<char> {
    let t = trim_dash_end(trim_dash_start(slug_scan(title).0));
    if t.len() == 0 {
        untitled()
    } else {
        t
    }
}

proof fn lemma_trim_start_skip(s: Seq<char>, i: int)
    requires
        0 <= i <= s.len(),
        forall|j: int| 0 <= j < i ==> s[j] == '-',
    ensures
        trim_dash_start(s) == trim_dash_start(s.skip(i)),
    decreases i,
{
    if i > 0 {
        assert(s.skip(1) =~= s.drop_first());
        lemma_trim_start_skip(s.drop_first(), i - 1);
        assert(s.drop_first().skip(i - 1) =~= s.skip(i));
    } else {
        assert(s.skip(0) =~= s);
    }
}

proof fn lemma_trim_end_take(s: Seq<char>, k: int)
    requires
        0 <= k <= s.len(),
        forall|j: int| k <= j < s.len() ==> s[j] == '-',
    ensures
        trim_dash_end(s) == trim_dash_end(s.take(k)),
    decreases s.len() - k,
{
    if k < s.len() {
        assert(s.drop_last().take(k) =~= s.take(k));
        lemma_trim_end_take(s.drop_last(), k);
    } else {
        assert(s.take(k) =~= s);
    }
}

/// File-name slug from a human title: lowercase ASCII, Czech diacritics
/// folded, every run of other chars becomes one `-`, no `-` at either end;
/// `untitled` when nothing is left.
pub fn slugify(title: &str) -> (r: String)
    ensures
        r@ == slug(title@),
{
    let cs = chars_of(title);
    let n = cs.len();
    let mut out: Vec<char> = Vec::new();
    let mut last_dash = true;
    let mut i: usize = 0;
    while i < n
        invariant
            n == cs@.len(),
            cs@ == title@,
            i <= n,
            slug_scan(cs@.take(i as int)) == (out@, last_dash),
        decreases n - i,
    {
        let c = ascii_lower_exec(fold_diacritic_exec(cs[i]));
        assert(cs@.take(i + 1).drop_last() =~= cs@.take(i as int));
        if ('a' <= c && c <= 'z') || ('0' <= c && c <= '9') {
            out.push(c);
            last_dash = false;
        } else if !last_dash {
            out.push('-');
            last_dash = true;
        }
        i = i + 1;
    }
    assert(cs@.take(n as int) =~= cs@);
    let m = out.len();
    let mut a: usize = 0;
    while a < m && out[a] == '-'
        invariant
            m == out@.len(),
            a <= m,
            forall|j: int| 0 <= j < a ==> out@[j] == '-',
        decreases m - a,
    {
        a = a + 1;
    }
    proof {
        lemma_trim_start_skip(out@, a as int);
    }
    let mut b: usize = m;
    while b > a && out[b - 1] == '-'
        invariant
            m == out@.len(),
            a <= b <= m,
            forall|j: int| b <= j < m ==> out@[j] == '-',
        decreases b,
    {
        b = b - 1;
    }
    proof {
        let t = out@.skip(a as int);
        if a < m {
            assert(t[0] != '-');
            assert(trim_dash_start(t) == t);
        } else {
            assert(trim_dash_start(t) == t);
        }
        lemma_trim_end_take(t, b - a);
        assert(t.take(b - a) =~= out@.subrange(a as int, b as int));
        if b > a {
            assert(out@.subrange(a as int, b as int).last() != '-');
        }
    }
    if b == a {
        let u: Vec<char> = vec!['u', 'n', 't', 'i', 't', 'l', 'e', 'd'];
        assert(u@ =~= untitled());
        string_of(u.as_slice())
    } else {
        string_of_range(out.as_slice(), a, b)
    }
}


/// Seconds since the UNIX epoch by the system clock (std's
/// `SystemTime::now().duration_since(UNIX_EPOCH)`), 0 when the clock is
/// before the epoch. The clock is read, so nothing is promised of the value.
#[verifier::external_body]
fn unix_seconds() -> u64 {
    std::time::SystemTime::now().duration_since(std::time::UNIX_EPOCH).map(|d| d.as_secs()).unwrap_or(0)
}

/// The `i64` that the bits of `secs` stand for (the `as i64` conversion).
pub open spec fn wrap_i64(secs: u64) -> int {
    if secs <= i64::MAX {
        secs as int
    } else {
        secs - 0x1_0000_0000_0000_0000int
    }
}

/// Current UTC time as ISO-8601 `YYYY-MM-DDTHH:MM:SSZ`.
pub fn now_iso() -> (r: String)
    ensures
        exists|secs: u64| r@ == iso_text(civil(#[trigger] wrap_i64(secs))),
{
    let secs = unix_seconds();
    let t: i64 = if secs <= 9_223_372_036_854_775_807u64 {
        secs as i64
    } else {
        ((secs as i128) - 18_446_744_073_709_551_616i128) as i64
    };
    assert(t as int == wrap_i64(secs));
    iso_from_unix(t)
}

// ---------- decimal digits ----------

/// The value of a text of decimal digits.
pub open spec fn dec_val(s: Seq<char>) -> int
    decreases s.len(),
{
    if s.len() == 0 {
        0
    } else {
        dec_val(s.drop_last()) * 10 + (s.last() as int - '0' as int)
    }
}

proof fn lemma_digit_char(d: int)
    requires
        0 <= d < 10,
    ensures
        '0' <= digit_char(d) <= '9',
        digit_char(d) as int - '0' as int == d,
{
    let t = seq!['0', '1', '2', '3', '4', '5', '6', '7', '8', '9'];
    assert(digit_char(d) == t[d]);
    if d == 0 {
    } else if d == 1 {
    } else if d == 2 {
    } else if d == 3 {
    } else if d == 4 {
    } else if d == 5 {
    } else if d == 6 {
    } else if d == 7 {
    } else if d == 8 {
    } else {
        assert(d == 9);
    }
}

/// `dec(n)` is a non-empty text of digits whose value is `n`.
pub proof fn lemma_dec(n: nat)
    ensures
        dec(n).len() > 0,
        forall|i: int| 0 <= i < dec(n).len() ==> '0' <= #[trigger] dec(n)[i] <= '9',
        dec_val(dec(n)) == n,
    decreases n,
{
    if n < 10 {
        lemma_digit_char(n as int);
        assert(dec(n).drop_last() =~= Seq::<char>::empty());
        assert(dec_val(dec(n).drop_last()) == 0);
        assert(dec(n).last() == digit_char(n as int));
    } else {
        lemma_dec(n / 10);
        lemma_digit_char((n % 10) as int);
        let s = dec(n);
        assert(s.drop_last() =~= dec(n / 10));
        assert(s.last() == digit_char((n % 10) as int));
        assert(dec_val(s) == dec_val(dec(n / 10)) * 10 + (n % 10));
        assert((n / 10) * 10 + n % 10 == n);
        assert forall|i: int| 0 <= i < s.len() implies '0' <= #[trigger] s[i] <= '9' by {
            if i < s.len() - 1 {
                assert(s[i] == dec(n / 10)[i]);
            }
        }
    }
}

/// Different numbers have different decimal texts.
pub proof fn lemma_dec_injective(n: nat, m: nat)
    requires
        dec(n) == dec(m),
    ensures
        n == m,
{
    lemma_dec(n);
    lemma_dec(m);
}

// ---------- FNV-1a, hexadecimal, ids and tokens ----------

/// FNV-1a offset basis.
pub const FNV_OFFSET: u64 = 0xcbf29ce484222325;

/// FNV-1a prime.
pub const FNV_PRIME: u64 = 0x100000001b3;

/// One FNV-1a step: xor the byte in, multiply by the prime (mod 2^64).
pub open spec fn fnv_step(h: u64, b: u8) -> u64 {
    (((h ^ (b as u64)) as nat * (FNV_PRIME as nat)) % 0x10000000000000000nat) as u64
}

/// FNV-1a over a byte string, from state `h`.
pub open spec fn fnv_bytes(h: u64, bs: Seq<u8>) -> u64
    decreases bs.len(),
{
    if bs.len() == 0 {
        h
    } else {
        fnv_step(fnv_bytes(h, bs.drop_last()), bs.last())
    }
}

pub proof fn lemma_fnv_concat(h: u64, a: Seq<u8>, b: Seq<u8>)
    ensures
        fnv_bytes(h, a + b) == fnv_bytes(fnv_bytes(h, a), b),
    decreases b.len(),
{
    if b.len() == 0 {
        assert(a + b =~= a);
    } else {
        assert((a + b).drop_last() =~= a + b.drop_last());
        lemma_fnv_concat(h, a, b.drop_last());
    }
}

/// Mixes `bytes` into the FNV-1a state `h`.
pub fn fnv_mix(h: u64, bytes: &[u8]) -> (r: u64)
    ensures
        r == fnv_bytes(h, bytes@),
{
    let mut x = h;
    let n = bytes.len();
    let mut i: usize = 0;
    while i < n
        invariant
            n == bytes@.len(),
            i <= n,
            x == fnv_bytes(h, bytes@.take(i as int)),
        decreases n - i,
    {
        assert(bytes@.take(i + 1).drop_last() =~= bytes@.take(i as int));
        x = (x ^ (bytes[i] as u64)).wrapping_mul(FNV_PRIME);
        i = i + 1;
    }
    assert(bytes@.take(n as int) =~= bytes@);
    x
}

/// The eight little-endian bytes of `v` (std's `u64::to_le_bytes`).
pub open spec fn le64(v: u64) -> Seq<u8> {
    Seq::new(8, |i: int| ((v >> ((8 * i) as u64)) & 0xff) as u8)
}

/// The sixteen little-endian bytes of `v` (std's `u128::to_le_bytes`).
pub open spec fn le128(v: u128) -> Seq<u8> {
    Seq::new(16, |i: int| ((v >> ((8 * i) as u128)) & 0xff) as u8)
}

pub fn le_bytes64(v: u64) -> (r: Vec<u8>)
    ensures
        r@ == le64(v),
{
    let mut out: Vec<u8> = Vec::new();
    let mut i: u64 = 0;
    while i < 8
        invariant
            i <= 8,
            out@.len() == i,
            forall|k: int| 0 <= k < i ==> out@[k] == ((v >> ((8 * k) as u64)) & 0xff) as u8,
        decreases 8 - i,
    {
        out.push(((v >> (8 * i)) & 0xff) as u8);
        i = i + 1;
    }
    assert(out@ =~= le64(v));
    out
}

pub fn le_bytes128(v: u128) -> (r: Vec<u8>)
    ensures
        r@ == le128(v),
{
    let mut out: Vec<u8> = Vec::new();
    let mut i: u128 = 0;
    while i < 16
        invariant
            i <= 16,
            out@.len() == i,
            forall|k: int| 0 <= k < i ==> out@[k] == ((v >> ((8 * k) as u128)) & 0xff) as u8,
        decreases 16 - i,
    {
        out.push(((v >> (8 * i)) & 0xff) as u8);
        i = i + 1;
    }
    assert(out@ =~= le128(v));
    out
}

/// The lower-case hexadecimal digit for `d` (0..=15).
pub open spec fn hex_char(d: int) -> char {
    seq!['0', '1', '2', '3', '4', '5', '6', '7', '8', '9', 'a', 'b', 'c', 'd', 'e', 'f'][d]
}

/// Lower-case hexadecimal digits of `n`, most significant first (`{:x}`).
pub open spec fn hex(n: nat) -> Seq<char>
    decreases n,
{
    if n < 16 {
        seq![hex_char(n as int)]
    } else {
        hex(n / 16).push(hex_char((n % 16) as int))
    }
}

/// At least `w` hexadecimal digits, zero-padded (`{:0w$x}`).
pub open spec fn hex_pad(n: nat, w: nat) -> Seq<char> {
    if hex(n).len() >= w {
        hex(n)
    } else {
        zeros(w - hex(n).len()) + hex(n)
    }
}

fn hex_digit(d: u128) -> (c: char)
    requires
        d < 16,
    ensures
        c == hex_char(d as int),
{
    if d < 10 {
        let c = digit(d);
        assert(c == hex_char(d as int)) by {
            assert(digit_char(d as int) == seq!['0', '1', '2', '3', '4', '5', '6', '7', '8', '9'][d as int]);
        }
        c
    } else if d == 10 { 'a' }
    else if d == 11 { 'b' }
    else if d == 12 { 'c' }
    else if d == 13 { 'd' }
    else if d == 14 { 'e' }
    else { 'f' }
}

/// Appends the hexadecimal digits of `n`.
pub fn push_hex(out: &mut Vec<char>, n: u128)
    ensures
        final(out)@ == old(out)@ + hex(n as nat),
    decreases n,
{
    if n >= 16 {
        push_hex(out, n / 16);
    }
    out.push(hex_digit(n % 16));
    assert(out@ =~= old(out)@ + hex(n as nat));
}

/// Appends `n` in hexadecimal, zero-padded to `w` digits.
pub fn push_hex_pad(out: &mut Vec<char>, n: u128, w: usize)
    ensures
        final(out)@ == old(out)@ + hex_pad(n as nat, w as nat),
{
    let mut digits: Vec<char> = Vec::new();
    push_hex(&mut digits, n);
    assert(digits@ =~= hex(n as nat));
    let k = digits.len();
    let ghost start = out@;
    if k < w {
        let mut i: usize = 0;
        while i < w - k
            invariant
                k < w,
                i <= w - k,
                out@ == start + zeros(i as int),
            decreases w - k - i,
        {
            out.push('0');
            assert(out@ =~= start + zeros(i + 1));
            i = i + 1;
        }
    }
    crate::text::extend_chars(out, digits.as_slice());
    assert(out@ =~= start + hex_pad(n as nat, w as nat));
}

/// The varying part of an id: `<nanos hex><counter hex, 2><mix hex, 4>`
/// (only the low byte of the counter and the low 16 bits of the mix).
pub open spec fn stamp_text(nanos: u64, counter: u64, mix: u64) -> Seq<char> {
    hex(nanos as nat) + hex_pad((counter % 256) as nat, 2) + hex_pad((mix % 65536) as nat, 4)
}

/// An id: `<prefix>-<stamp>`.
pub open spec fn prefixed_id(prefix: Seq<char>, stamp: Seq<char>) -> Seq<char> {
    prefix + seq!['-'] + stamp
}

/// The varying part of an id from the clock (`nanos`), a process-wide
/// counter and address entropy (`mix`); the caller gathers the three.
pub fn id_stamp(nanos: u64, counter: u64, mix: u64) -> (r: String)
    ensures
        r@ == stamp_text(nanos, counter, mix),
{
    let mut out: Vec<char> = Vec::new();
    push_hex(&mut out, nanos as u128);
    push_hex_pad(&mut out, (counter % 256) as u128, 2);
    push_hex_pad(&mut out, (mix % 65536) as u128, 4);
    assert(out@ =~= stamp_text(nanos, counter, mix));
    string_of(out.as_slice())
}

/// `<prefix>-<stamp>`.
pub fn prefixed(prefix: &str, stamp: &str) -> (r: String)
    ensures
        r@ == prefixed_id(prefix@, stamp@),
{
    let mut out = chars_of(prefix);
    out.push('-');
    crate::text::extend_str(&mut out, stamp);
    assert(out@ =~= prefixed_id(prefix@, stamp@));
    string_of(out.as_slice())
}

/// A unique, sortable id: `<prefix>-<nanos hex><counter hex, 2><mix hex, 4>`.
/// Not cryptographic; the caller gathers the clock, counter and entropy.
pub fn new_id(prefix: &str, nanos: u64, counter: u64, mix: u64) -> (r: String)
    ensures
        r@ == prefixed_id(prefix@, stamp_text(nanos, counter, mix)),
{
    let st = id_stamp(nanos, counter, mix);
    prefixed(prefix, st.as_str())
}

/// A byte in two hex digits.
proof fn lemma_hex_pad_byte(x: nat)
    requires
        x < 256,
    ensures
        hex_pad(x, 2) == seq![hex_char((x / 16) as int), hex_char((x % 16) as int)],
{
    if x < 16 {
        assert(hex(x) == seq![hex_char(x as int)]);
        assert(zeros(1) =~= seq!['0']);
        assert(hex_char(0) == '0');
        assert(hex_pad(x, 2) =~= seq![hex_char((x / 16) as int), hex_char((x % 16) as int)]);
    } else {
        assert(hex((x / 16) as nat) == seq![hex_char((x / 16) as int)]);
        assert(hex(x) =~= seq![hex_char((x / 16) as int), hex_char((x % 16) as int)]);
    }
}

proof fn lemma_hex_char_injective(a: int, b: int)
    requires
        0 <= a < 16,
        0 <= b < 16,
        hex_char(a) == hex_char(b),
    ensures
        a == b,
{
    let t = seq!['0', '1', '2', '3', '4', '5', '6', '7', '8', '9', 'a', 'b', 'c', 'd', 'e', 'f'];
    assert(hex_char(a) == t[a] && hex_char(b) == t[b]);
    assert(forall|i: int, j: int| 0 <= i < 16 && 0 <= j < 16 && i != j ==> t[i] != t[j]);
}

/// Ids are unique: two ids made from the same clock reading and entropy
/// differ when the counters differ in their low byte (the counter counts up
/// once per id).
pub proof fn lemma_ids_differ(prefix: Seq<char>, nanos: u64, c1: u64, c2: u64, mix: u64)
    requires
        c1 % 256 != c2 % 256,
    ensures
        prefixed_id(prefix, stamp_text(nanos, c1, mix)) != prefixed_id(prefix, stamp_text(nanos, c2, mix)),
{
    let x = (c1 % 256) as nat;
    let y = (c2 % 256) as nat;
    lemma_hex_pad_byte(x);
    lemma_hex_pad_byte(y);
    let a = prefixed_id(prefix, stamp_text(nanos, c1, mix));
    let b = prefixed_id(prefix, stamp_text(nanos, c2, mix));
    let k: int = (prefix.len() + 1 + hex(nanos as nat).len()) as int;
    assert(a[k] == hex_char((x / 16) as int) && a[k + 1] == hex_char((x % 16) as int));
    assert(b[k] == hex_char((y / 16) as int) && b[k + 1] == hex_char((y % 16) as int));
    if a == b {
        lemma_hex_char_injective((x / 16) as int, (y / 16) as int);
        lemma_hex_char_injective((x % 16) as int, (y % 16) as int);
        assert(x == 16 * (x / 16) + x % 16);
        assert(y == 16 * (y / 16) + y % 16);
    }
}

/// The FNV-1a state after mixing in each value's little-endian bytes.
pub open spec fn fnv_words(h: u64, vs: Seq<u64>) -> u64
    decreases vs.len(),
{
    if vs.len() == 0 {
        h
    } else {
        fnv_bytes(fnv_words(h, vs.drop_last()), le64(vs.last()))
    }
}

/// The entropy of a token: the clock's nanoseconds (both halves), the
/// process id, the counter (scrambled), and two addresses.
pub open spec fn token_seed(nanos: u128, pid: u64, counter: u64, addr: u64, thread: u64) -> Seq<u64> {
    seq![
        (nanos % 0x10000000000000000) as u64,
        (nanos / 0x10000000000000000) as u64,
        pid,
        counter ^ 0x5851f42d4c957f2du64,
        addr,
        thread,
    ]
}

/// The state after the seed and `k` stretching rounds.
pub open spec fn token_state(seed: u64, k: nat) -> u64
    decreases k,
{
    if k == 0 {
        seed
    } else {
        fnv_bytes(token_state(seed, (k - 1) as nat), le64(0x9e3779b97f4a7c15u64 ^ ((k - 1) as u64)))
    }
}

/// The text of a token: the state after each of four stretching rounds, as
/// sixteen hexadecimal digits.
pub open spec fn token_text(seed: u64) -> Seq<char> {
    hex_pad(token_state(seed, 1) as nat, 16) + hex_pad(token_state(seed, 2) as nat, 16) + hex_pad(
        token_state(seed, 3) as nat,
        16,
    ) + hex_pad(token_state(seed, 4) as nat, 16)
}

/// A random-ish hexadecimal token for the API key: the entropy sources are
/// mixed and stretched with FNV-1a. The caller gathers the sources.
pub fn new_token(nanos: u128, pid: u64, counter: u64, addr: u64, thread: u64) -> (r: String)
    ensures
        r@ == token_text(fnv_words(FNV_OFFSET, token_seed(nanos, pid, counter, addr, thread))),
{
    let ghost seed = token_seed(nanos, pid, counter, addr, thread);
    let words: Vec<u64> = vec![
        (nanos % 0x10000000000000000) as u64,
        (nanos / 0x10000000000000000) as u64,
        pid,
        counter ^ 0x5851f42d4c957f2du64,
        addr,
        thread,
    ];
    assert(words@ =~= seed);
    let mut h: u64 = FNV_OFFSET;
    let mut i: usize = 0;
    while i < 6
        invariant
            words@ == seed,
            seed.len() == 6,
            i <= 6,
            h == fnv_words(FNV_OFFSET, seed.take(i as int)),
        decreases 6 - i,
    {
        assert(seed.take(i + 1).drop_last() =~= seed.take(i as int));
        let b = le_bytes64(words[i]);
        h = fnv_mix(h, b.as_slice());
        i = i + 1;
    }
    assert(seed.take(6) =~= seed);
    let ghost s0 = h;
    let mut out: Vec<char> = Vec::new();
    let mut k: u64 = 0;
    while k < 4
        invariant
            k <= 4,
            h == token_state(s0, k as nat),
            out@ == (if k == 0 {
                Seq::<char>::empty()
            } else if k == 1 {
                hex_pad(token_state(s0, 1) as nat, 16)
            } else if k == 2 {
                hex_pad(token_state(s0, 1) as nat, 16) + hex_pad(token_state(s0, 2) as nat, 16)
            } else if k == 3 {
                hex_pad(token_state(s0, 1) as nat, 16) + hex_pad(token_state(s0, 2) as nat, 16) + hex_pad(
                    token_state(s0, 3) as nat,
                    16,
                )
            } else {
                token_text(s0)
            }),
        decreases 4 - k,
    {
        let b = le_bytes64(0x9e3779b97f4a7c15u64 ^ k);
        h = fnv_mix(h, b.as_slice());
        push_hex_pad(&mut out, h as u128, 16);
        k = k + 1;
    }
    string_of(out.as_slice())
}

// ---------- the shape of a slug ----------

proof fn lemma_slug_scan(cs: Seq<char>)
    ensures
        ({
            let (o, dash) = slug_scan(cs);
            &&& forall|i: int| 0 <= i < o.len() ==> is_slug_char(#[trigger] o[i]) || o[i] == '-'
            &&& forall|i: int| 0 <= i < o.len() && #[trigger] o[i] == '-' ==> i > 0 && is_slug_char(o[i - 1])
            &&& dash == (o.len() == 0 || o.last() == '-')
        }),
    decreases cs.len(),
{
    if cs.len() > 0 {
        lemma_slug_scan(cs.drop_last());
        let (o, dash) = slug_scan(cs.drop_last());
        let c = ascii_lower(fold_diacritic(cs.last()));
        if is_slug_char(c) {
            let o2 = o.push(c);
            assert forall|i: int| 0 <= i < o2.len() && #[trigger] o2[i] == '-' implies i > 0 && is_slug_char(o2[i - 1]) by {
                assert(o2[i] == o[i]);
            }
        } else if !dash {
            let o2 = o.push('-');
            assert forall|i: int| 0 <= i < o2.len() && #[trigger] o2[i] == '-' implies i > 0 && is_slug_char(o2[i - 1]) by {
                if i < o.len() {
                    assert(o2[i] == o[i]);
                } else {
                    assert(o2[i - 1] == o.last());
                }
            }
        }
    }
}

/// A slug is never empty, holds only `a-z`, `0-9` and `-`, starts and ends
/// with a letter or digit, and has no two `-` in a row.
pub proof fn lemma_slug_shape(title: Seq<char>)
    ensures
        slug(title).len() > 0,
        forall|i: int| 0 <= i < slug(title).len() ==> is_slug_char(#[trigger] slug(title)[i]) || slug(title)[i] == '-',
        is_slug_char(slug(title)[0]),
        is_slug_char(slug(title).last()),
        forall|i: int| 0 < i < slug(title).len() && #[trigger] slug(title)[i] == '-' ==> slug(title)[i - 1] != '-',
{
    lemma_slug_scan(title);
    let o = slug_scan(title).0;
    assert(trim_dash_start(o) == o) by {
        if o.len() > 0 && o[0] == '-' {
            assert(false);
        }
    }
    let t = trim_dash_end(o);
    if o.len() > 0 && o.last() == '-' {
        assert(o[o.len() - 1] == '-');
        let p = o.drop_last();
        assert(p.len() > 0 && is_slug_char(p.last()));
        assert(p.last() == o[o.len() - 2]);
        assert(p.last() != '-');
        assert(trim_dash_end(p) == p);
        assert(t == trim_dash_end(p));
    } else {
        assert(t == o);
    }
    assert forall|i: int| 0 <= i < t.len() implies (is_slug_char(#[trigger] t[i]) || t[i] == '-') && (t[i] == '-' ==> i > 0
        && is_slug_char(t[i - 1])) by {
        assert(t[i] == o[i]);
        if i > 0 {
            assert(t[i - 1] == o[i - 1]);
        }
    }
    if t.len() == 0 {
        let u = untitled();
        assert(forall|i: int| 0 <= i < u.len() ==> is_slug_char(#[trigger] u[i]));
    } else {
        if t[0] == '-' {
            assert(false);
        }
        assert(t.last() == t[t.len() - 1]);
    }
}

/// The text of a slug scans to itself, prefix by prefix.
proof fn lemma_scan_of_slug(s: Seq<char>, k: int)
    requires
        0 <= k <= s.len(),
        forall|i: int| 0 <= i < s.len() ==> is_slug_char(#[trigger] s[i]) || s[i] == '-',
        s.len() > 0 ==> is_slug_char(s[0]),
        forall|i: int| 0 < i < s.len() && #[trigger] s[i] == '-' ==> s[i - 1] != '-',
    ensures
        slug_scan(s.take(k)) == (s.take(k), k == 0 || s[k - 1] == '-'),
    decreases k,
{
    if k > 0 {
        lemma_scan_of_slug(s, k - 1);
        assert(s.take(k).drop_last() =~= s.take(k - 1));
        assert(s.take(k).last() == s[k - 1]);
        let c = s[k - 1];
        assert(fold_diacritic(c) == c);
        assert(ascii_lower(c) == c);
        if is_slug_char(c) {
            assert(s.take(k - 1).push(c) =~= s.take(k));
        } else {
            assert(c == '-');
            assert(k - 1 > 0);
            assert(s[k - 2] != '-');
            assert(s.take(k - 1).push('-') =~= s.take(k));
        }
    }
}

/// Slugging a slug gives it back unchanged.
pub proof fn lemma_slug_idempotent(title: Seq<char>)
    ensures
        slug(slug(title)) == slug(title),
{
    lemma_slug_shape(title);
    let s = slug(title);
    lemma_scan_of_slug(s, s.len() as int);
    assert(s.take(s.len() as int) =~= s);
    assert(s[0] != '-');
    assert(trim_dash_start(s) == s);
    assert(s.last() != '-');
    assert(trim_dash_end(s) == s);
}

/// The Czech letters with a diacritic that a title folds, lower case then
/// upper case.
pub open spec fn diacritic_letters() -> Seq<char> {
    seq![
        'á', 'ä', 'č', 'ď', 'é', 'ě', 'í', 'ĺ', 'ľ', 'ň', 'ó', 'ô', 'ö', 'ř', 'ŕ', 'š', 'ť', 'ú', 'ů', 'ü', 'ý', 'ž',
        'Á', 'Ä', 'Č', 'Ď', 'É', 'Ě', 'Í', 'Ĺ', 'Ľ', 'Ň', 'Ó', 'Ô', 'Ö', 'Ř', 'Ŕ', 'Š', 'Ť', 'Ú', 'Ů', 'Ü', 'Ý', 'Ž',
    ]
}

/// The base letter of each entry of `diacritic_letters`, at the same place.
pub open spec fn base_letters() -> Seq<char> {
    seq![
        'a', 'a', 'c', 'd', 'e', 'e', 'i', 'l', 'l', 'n', 'o', 'o', 'o', 'r', 'r', 's', 't', 'u', 'u', 'u', 'y', 'z',
        'A', 'A', 'C', 'D', 'E', 'E', 'I', 'L', 'L', 'N', 'O', 'O', 'O', 'R', 'R', 'S', 'T', 'U', 'U', 'U', 'Y', 'Z',
    ]
}

proof fn lemma_fold_table(k: int)
    requires
        0 <= k < diacritic_letters().len(),
    ensures
        base_letters().len() == diacritic_letters().len(),
        fold_diacritic(diacritic_letters()[k]) == base_letters()[k],
        fold_diacritic(base_letters()[k]) == base_letters()[k],
{
}

/// Titles that agree letter by letter once folded and lower-cased scan alike.
proof fn lemma_scan_same_folds(a: Seq<char>, b: Seq<char>)
    requires
        a.len() == b.len(),
        forall|j: int| 0 <= j < a.len() ==> ascii_lower(fold_diacritic(#[trigger] a[j])) == ascii_lower(fold_diacritic(b[j])),
    ensures
        slug_scan(a) == slug_scan(b),
    decreases a.len(),
{
    if a.len() > 0 {
        let a2 = a.drop_last();
        let b2 = b.drop_last();
        assert forall|j: int| 0 <= j < a2.len() implies ascii_lower(fold_diacritic(#[trigger] a2[j])) == ascii_lower(
            fold_diacritic(b2[j]),
        ) by {
            assert(a2[j] == a[j] && b2[j] == b[j]);
        }
        lemma_scan_same_folds(a2, b2);
        assert(a.last() == a[a.len() - 1]);
        assert(b.last() == b[b.len() - 1]);
    }
}

/// A Czech letter with a diacritic counts in a slug as its base letter: in
/// any title, writing the letter or its base letter at one place gives the
/// same slug.
pub proof fn lemma_slug_folds_diacritics(t: Seq<char>, i: int, k: int)
    requires
        0 <= i < t.len(),
        0 <= k < diacritic_letters().len(),
    ensures
        slug(t.update(i, diacritic_letters()[k])) == slug(t.update(i, base_letters()[k])),
{
    let a = t.update(i, diacritic_letters()[k]);
    let b = t.update(i, base_letters()[k]);
    lemma_fold_table(k);
    assert forall|j: int| 0 <= j < a.len() implies ascii_lower(fold_diacritic(#[trigger] a[j])) == ascii_lower(
        fold_diacritic(b[j]),
    ) by {
        if j != i {
            assert(a[j] == t[j] && b[j] == t[j]);
        }
    }
    lemma_scan_same_folds(a, b);
}

#[verifier::spinoff_prover]
#[verifier::rlimit(60)]
proof fn lemma_day_of_era(doe: int)
    requires
        0 <= doe <= 146096,
    ensures
        ({
            let yoe = (doe - doe / 1460 + doe / 36524 - doe / 146096) / 365;
            let doy = doe - (365 * yoe + yoe / 4 - yoe / 100);
            &&& 0 <= yoe <= 399
            &&& 0 <= doy <= 365
            &&& (yoe == 399 && doy >= 306 ==> doe >= 146037)
        }),
{
}

proof fn lemma_dec_short(n: nat)
    ensures
        n < 10 ==> dec(n).len() == 1,
        n < 100 ==> dec(n).len() <= 2,
        n < 1000 ==> dec(n).len() <= 3,
        n < 10000 ==> dec(n).len() <= 4,
    decreases n,
{
    if n >= 10 {
        lemma_dec_short(n / 10);
    }
}

/// Decimal digits only.
pub open spec fn all_digits(t: Seq<char>) -> bool {
    forall|i: int| 0 <= i < t.len() ==> '0' <= #[trigger] t[i] <= '9'
}

proof fn lemma_padded_fits(x: int, w: int)
    requires
        0 <= x,
        w == 2 && x < 100 || w == 4 && x < 10000,
    ensures
        padded(x, w).len() == w,
        all_digits(padded(x, w)),
{
    lemma_dec_short(x as nat);
    lemma_dec(x as nat);
    let z = zeros(w - dec(x as nat).len());
    let p = padded(x, w);
    assert(p == z + dec(x as nat));
    assert forall|i: int| 0 <= i < p.len() implies '0' <= #[trigger] p[i] <= '9' by {
        if i < z.len() {
            assert(p[i] == z[i]);
        } else {
            assert(p[i] == dec(x as nat)[i - z.len()]);
        }
    }
}

/// `YYYY-MM-DDTHH:MM:SSZ`: twenty chars, digits where the fields stand.
pub open spec fn iso_shaped(t: Seq<char>) -> bool {
    &&& t.len() == 20
    &&& all_digits(t.subrange(0, 4)) && t[4] == '-' && all_digits(t.subrange(5, 7)) && t[7] == '-'
    &&& all_digits(t.subrange(8, 10)) && t[10] == 'T' && all_digits(t.subrange(11, 13)) && t[13] == ':'
    &&& all_digits(t.subrange(14, 16)) && t[16] == ':' && all_digits(t.subrange(17, 19)) && t[19] == 'Z'
}

/// From 1970 up to the end of the year 9999 the fields fit their widths:
/// a year of at most four digits, a month 1 to 12, a day 1 to 31, an hour
/// below 24, minutes and seconds below 60.
#[verifier::spinoff_prover]
#[verifier::rlimit(80)]
proof fn lemma_civil_ranges(secs: int)
    requires
        0 <= secs <= 253402300799,
    ensures
        ({
            let f = civil(secs);
            &&& 1970 <= f.0 <= 9999
            &&& 1 <= f.1 <= 12
            &&& 1 <= f.2 <= 31
            &&& 0 <= f.3 < 24
            &&& 0 <= f.4 < 60
            &&& 0 <= f.5 < 60
        }),
{
    let days = secs / 86400;
    let z = days + 719468;
    let era = z / 146097;
    let doe = z % 146097;
    lemma_day_of_era(doe);
    assert(4 <= era <= 24);
    assert(era == 24 ==> doe <= 146036);
}

/// A time stamp between 1970 and the end of the year 9999 has the shape
/// `YYYY-MM-DDTHH:MM:SSZ`: twenty chars, digits where the fields stand.
pub proof fn lemma_iso_shape(secs: int)
    requires
        0 <= secs <= 253402300799,
    ensures
        iso_shaped(iso_text(civil(secs))),
{
    lemma_civil_ranges(secs);
    let f = civil(secs);
    lemma_padded_fits(f.0, 4);
    lemma_padded_fits(f.1, 2);
    lemma_padded_fits(f.2, 2);
    lemma_padded_fits(f.3, 2);
    lemma_padded_fits(f.4, 2);
    lemma_padded_fits(f.5, 2);
    let t = iso_text(f);
    assert(t.subrange(0, 4) =~= padded(f.0, 4));
    assert(t.subrange(5, 7) =~= padded(f.1, 2));
    assert(t.subrange(8, 10) =~= padded(f.2, 2));
    assert(t.subrange(11, 13) =~= padded(f.3, 2));
    assert(t.subrange(14, 16) =~= padded(f.4, 2));
    assert(t.subrange(17, 19) =~= padded(f.5, 2));
}

/// Whether the fields `f` come before the fields `g` (year first).
pub open spec fn fields_lt(f: (int, int, int, int, int, int), g: (int, int, int, int, int, int)) -> bool {
    f.0 < g.0 || (f.0 == g.0 && (f.1 < g.1 || (f.1 == g.1 && (f.2 < g.2 || (f.2 == g.2 && (f.3 < g.3 || (f.3
        == g.3 && (f.4 < g.4 || (f.4 == g.4 && f.5 < g.5)))))))))
}

/// Year of era, month index from March and day of a day of era.
spec fn day_fields(doe: int) -> (int, int, int) {
    let yoe = (doe - doe / 1460 + doe / 36524 - doe / 146096) / 365;
    let doy = doe - (365 * yoe + yoe / 4 - yoe / 100);
    let mp = (5 * doy + 2) / 153;
    (yoe, mp, doy - (153 * mp + 2) / 5 + 1)
}

#[verifier::spinoff_prover]
#[verifier::rlimit(80)]
proof fn lemma_next_day_of_era(doe: int)
    requires
        0 <= doe < 146096,
    ensures
        ({
            let a = day_fields(doe);
            let b = day_fields(doe + 1);
            &&& 0 <= a.1 <= 11 && 0 <= b.1 <= 11
            &&& (a.0 < b.0 || (a.0 == b.0 && (a.1 < b.1 || (a.1 == b.1 && a.2 < b.2))))
        }),
{
    lemma_day_of_era(doe);
    lemma_day_of_era(doe + 1);
}

/// The next second has later fields.
#[verifier::spinoff_prover]
#[verifier::rlimit(80)]
proof fn lemma_civil_step(secs: int)
    requires
        0 <= secs < 253402300799,
    ensures
        fields_lt(civil(secs), civil(secs + 1)),
{
    let days = secs / 86400;
    let z = days + 719468;
    let doe = z % 146097;
    lemma_day_of_era(doe);
    if (secs + 1) % 86400 == 0 {
        assert((secs + 1) / 86400 == days + 1);
        if doe < 146096 {
            lemma_next_day_of_era(doe);
            assert((z + 1) / 146097 == z / 146097);
            assert((z + 1) % 146097 == doe + 1);
        } else {
            assert((z + 1) % 146097 == 0);
            assert((z + 1) / 146097 == z / 146097 + 1);
            lemma_day_of_era(0);
        }
    } else {
        assert((secs + 1) / 86400 == days);
    }
}

proof fn lemma_civil_lt(a: int, b: int)
    requires
        0 <= a < b <= 253402300799,
    ensures
        fields_lt(civil(a), civil(b)),
    decreases b - a,
{
    lemma_civil_step(b - 1);
    if a < b - 1 {
        lemma_civil_lt(a, b - 1);
    }
}

proof fn lemma_key_lt_same_prefix(a: Seq<char>, b: Seq<char>, c: Seq<char>)
    requires
        key_lt(b, c),
    ensures
        key_lt(a + b, a + c),
    decreases a.len(),
{
    if a.len() == 0 {
        assert(a + b =~= b);
        assert(a + c =~= c);
    } else {
        lemma_key_lt_same_prefix(a.drop_first(), b, c);
        assert((a + b).drop_first() =~= a.drop_first() + b);
        assert((a + c).drop_first() =~= a.drop_first() + c);
        assert((a + b)[0] == a[0] && (a + c)[0] == a[0]);
    }
}

proof fn lemma_key_lt_heads(a: Seq<char>, b: Seq<char>, c: Seq<char>, e: Seq<char>)
    requires
        a.len() == c.len(),
        key_lt(a, c),
    ensures
        key_lt(a + b, c + e),
    decreases a.len(),
{
    if a.len() > 0 {
        assert((a + b)[0] == a[0] && (c + e)[0] == c[0]);
        if a[0] == c[0] {
            lemma_key_lt_heads(a.drop_first(), b, c.drop_first(), e);
            assert((a + b).drop_first() =~= a.drop_first() + b);
            assert((c + e).drop_first() =~= c.drop_first() + e);
        }
    }
}

proof fn lemma_digit_lt(a: int, b: int)
    requires
        0 <= a < b < 10,
    ensures
        (digit_char(a) as u32) < (digit_char(b) as u32),
{
    lemma_digit_char(a);
    lemma_digit_char(b);
}

proof fn lemma_key_lt_cons(a: char, b: char, r1: Seq<char>, r2: Seq<char>)
    requires
        (a as u32) < (b as u32) || (a == b && key_lt(r1, r2)),
    ensures
        key_lt(seq![a] + r1, seq![b] + r2),
{
    let x = seq![a] + r1;
    let y = seq![b] + r2;
    assert(x[0] == a && y[0] == b);
    assert(x.drop_first() =~= r1 && y.drop_first() =~= r2);
}

/// A number below 100 in two digits.
spec fn digits2(x: int) -> Seq<char> {
    seq![digit_char(x / 10)] + seq![digit_char(x % 10)]
}

/// A number below 10000 in four digits.
spec fn digits4(x: int) -> Seq<char> {
    seq![digit_char(x / 1000)] + (seq![digit_char((x / 100) % 10)] + (seq![digit_char((x / 10) % 10)] + seq![
        digit_char(x % 10),
    ]))
}

#[verifier::spinoff_prover]
#[verifier::rlimit(80)]
proof fn lemma_padded_digits(x: int)
    requires
        0 <= x < 10000,
    ensures
        x < 100 ==> padded(x, 2) == digits2(x),
        padded(x, 4) == digits4(x),
{
    lemma_dec_short(x as nat);
    let n = x as nat;
    if n < 10 {
        assert(dec(n) == seq![digit_char(x)]);
        assert(zeros(1) =~= seq!['0']);
        assert(zeros(3) =~= seq!['0', '0', '0']);
        assert(digit_char(0) == '0');
        assert(padded(x, 2) =~= digits2(x));
        assert(padded(x, 4) =~= digits4(x));
    } else if n < 100 {
        assert(dec(n / 10) == seq![digit_char(x / 10)]);
        assert(dec(n) == seq![digit_char(x / 10), digit_char(x % 10)]);
        assert(zeros(0) =~= Seq::<char>::empty());
        assert(zeros(2) =~= seq!['0', '0']);
        assert(digit_char(0) == '0');
        assert((x / 10) % 10 == x / 10);
        assert(padded(x, 2) =~= digits2(x));
        assert(padded(x, 4) =~= digits4(x));
    } else if n < 1000 {
        assert(dec(n / 100) == seq![digit_char(x / 100)]);
        assert((n / 10) / 10 == n / 100);
        assert(dec(n / 10) == seq![digit_char(x / 100), digit_char((x / 10) % 10)]);
        assert(dec(n) == seq![digit_char(x / 100), digit_char((x / 10) % 10), digit_char(x % 10)]);
        assert(zeros(1) =~= seq!['0']);
        assert(digit_char(0) == '0');
        assert((x / 100) % 10 == x / 100);
        assert(padded(x, 4) =~= digits4(x));
    } else {
        assert(dec(n / 1000) == seq![digit_char(x / 1000)]);
        assert((n / 100) / 10 == n / 1000);
        assert((n / 10) / 10 == n / 100);
        assert(dec(n / 100) == seq![digit_char(x / 1000), digit_char((x / 100) % 10)]);
        assert(dec(n / 10) == seq![digit_char(x / 1000), digit_char((x / 100) % 10), digit_char((x / 10) % 10)]);
        assert(dec(n) == seq![digit_char(x / 1000), digit_char((x / 100) % 10), digit_char((x / 10) % 10), digit_char(x % 10)]);
        assert(zeros(0) =~= Seq::<char>::empty());
        assert(padded(x, 4) =~= digits4(x));
    }
}

proof fn lemma_digits2_lt(x: int, y: int)
    requires
        0 <= x < y < 100,
    ensures
        key_lt(digits2(x), digits2(y)),
{
    if x / 10 < y / 10 {
        lemma_digit_lt(x / 10, y / 10);
    } else {
        lemma_digit_lt(x % 10, y % 10);
        lemma_key_lt_cons(digit_char(x % 10), digit_char(y % 10), Seq::<char>::empty(), Seq::<char>::empty());
        assert(seq![digit_char(x % 10)] + Seq::<char>::empty() =~= seq![digit_char(x % 10)]);
        assert(seq![digit_char(y % 10)] + Seq::<char>::empty() =~= seq![digit_char(y % 10)]);
    }
    lemma_key_lt_cons(digit_char(x / 10), digit_char(y / 10), seq![digit_char(x % 10)], seq![digit_char(y % 10)]);
}

#[verifier::spinoff_prover]
#[verifier::rlimit(80)]
proof fn lemma_four_digits(x: int)
    requires
        0 <= x < 10000,
    ensures
        x == 1000 * (x / 1000) + 100 * ((x / 100) % 10) + 10 * ((x / 10) % 10) + x % 10,
        0 <= x / 1000 < 10,
        0 <= (x / 100) % 10 < 10,
        0 <= (x / 10) % 10 < 10,
        0 <= x % 10 < 10,
{
    assert((x / 100) / 10 == x / 1000);
    assert((x / 10) / 10 == x / 100);
    assert(x / 100 == 10 * (x / 1000) + (x / 100) % 10);
    assert(x / 10 == 10 * (x / 100) + (x / 10) % 10);
    assert(x == 10 * (x / 10) + x % 10);
}

#[verifier::spinoff_prover]
proof fn lemma_digits4_lt(x: int, y: int)
    requires
        0 <= x < y < 10000,
    ensures
        key_lt(digits4(x), digits4(y)),
{
    lemma_four_digits(x);
    lemma_four_digits(y);
    let e = Seq::<char>::empty();
    let (a0, a1, a2, a3) = (x / 1000, (x / 100) % 10, (x / 10) % 10, x % 10);
    let (b0, b1, b2, b3) = (y / 1000, (y / 100) % 10, (y / 10) % 10, y % 10);
    let t3x = seq![digit_char(a3)];
    let t3y = seq![digit_char(b3)];
    let t2x = seq![digit_char(a2)] + t3x;
    let t2y = seq![digit_char(b2)] + t3y;
    let t1x = seq![digit_char(a1)] + t2x;
    let t1y = seq![digit_char(b1)] + t2y;
    if a0 < b0 {
        lemma_digit_lt(a0, b0);
    } else {
        assert(a0 == b0);
        if a1 < b1 {
            lemma_digit_lt(a1, b1);
        } else {
            assert(a1 == b1);
            if a2 < b2 {
                lemma_digit_lt(a2, b2);
            } else {
                assert(a2 == b2);
                assert(a3 < b3);
                lemma_digit_lt(a3, b3);
                lemma_key_lt_cons(digit_char(a3), digit_char(b3), e, e);
                assert(seq![digit_char(a3)] + e =~= t3x);
                assert(seq![digit_char(b3)] + e =~= t3y);
            }
            lemma_key_lt_cons(digit_char(a2), digit_char(b2), t3x, t3y);
        }
        lemma_key_lt_cons(digit_char(a1), digit_char(b1), t2x, t2y);
    }
    lemma_key_lt_cons(digit_char(a0), digit_char(b0), t1x, t1y);
    assert(digits4(x) == seq![digit_char(a0)] + t1x);
    assert(digits4(y) == seq![digit_char(b0)] + t1y);
}

spec fn iso_tail(f: (int, int, int, int, int, int), k: int) -> Seq<char>
    decreases 6 - k,
{
    if k >= 5 {
        digits2(f.5) + seq!['Z']
    } else if k == 4 {
        digits2(f.4) + (seq![':'] + iso_tail(f, 5))
    } else if k == 3 {
        digits2(f.3) + (seq![':'] + iso_tail(f, 4))
    } else if k == 2 {
        digits2(f.2) + (seq!['T'] + iso_tail(f, 3))
    } else if k == 1 {
        digits2(f.1) + (seq!['-'] + iso_tail(f, 2))
    } else {
        digits4(f.0) + (seq!['-'] + iso_tail(f, 1))
    }
}

spec fn fields_fit(f: (int, int, int, int, int, int)) -> bool {
    0 <= f.0 < 10000 && 0 <= f.1 < 100 && 0 <= f.2 < 100 && 0 <= f.3 < 100 && 0 <= f.4 < 100 && 0 <= f.5 < 100
}

proof fn lemma_iso_tail_text(f: (int, int, int, int, int, int))
    requires
        fields_fit(f),
    ensures
        iso_text(f) == iso_tail(f, 0),
{
    lemma_padded_digits(f.0);
    lemma_padded_digits(f.1);
    lemma_padded_digits(f.2);
    lemma_padded_digits(f.3);
    lemma_padded_digits(f.4);
    lemma_padded_digits(f.5);
    let t5 = digits2(f.5) + seq!['Z'];
    let t4 = digits2(f.4) + (seq![':'] + t5);
    let t3 = digits2(f.3) + (seq![':'] + t4);
    let t2 = digits2(f.2) + (seq!['T'] + t3);
    let t1 = digits2(f.1) + (seq!['-'] + t2);
    let t0 = digits4(f.0) + (seq!['-'] + t1);
    assert(iso_tail(f, 5) == t5);
    assert(iso_tail(f, 4) == t4);
    assert(iso_tail(f, 3) == t3);
    assert(iso_tail(f, 2) == t2);
    assert(iso_tail(f, 1) == t1);
    assert(iso_tail(f, 0) == t0);
    assert(iso_text(f) =~= t0);
}

/// Equal fields before `k`, then the fields from `k` on compare as `f` before `g`.
#[verifier::spinoff_prover]
#[verifier::rlimit(80)]
proof fn lemma_iso_tail_lt(f: (int, int, int, int, int, int), g: (int, int, int, int, int, int), k: int)
    requires
        fields_fit(f),
        fields_fit(g),
        0 <= k <= 5,
        k > 0 ==> f.0 == g.0,
        k > 1 ==> f.1 == g.1,
        k > 2 ==> f.2 == g.2,
        k > 3 ==> f.3 == g.3,
        k > 4 ==> f.4 == g.4,
        fields_lt(f, g),
    ensures
        key_lt(iso_tail(f, k), iso_tail(g, k)),
    decreases 5 - k,
{
    let (x, y) = if k == 0 {
        (f.0, g.0)
    } else if k == 1 {
        (f.1, g.1)
    } else if k == 2 {
        (f.2, g.2)
    } else if k == 3 {
        (f.3, g.3)
    } else if k == 4 {
        (f.4, g.4)
    } else {
        (f.5, g.5)
    };
    let dx = if k == 0 { digits4(x) } else { digits2(x) };
    let dy = if k == 0 { digits4(y) } else { digits2(y) };
    let sep = if k == 0 || k == 1 { seq!['-'] } else if k == 2 { seq!['T'] } else if k == 5 { seq!['Z'] } else { seq![':'] };
    if k < 5 {
        assert(iso_tail(f, k) == dx + (sep + iso_tail(f, k + 1)));
        assert(iso_tail(g, k) == dy + (sep + iso_tail(g, k + 1)));
    } else {
        assert(iso_tail(f, k) == dx + sep);
        assert(iso_tail(g, k) == dy + sep);
    }
    if x < y {
        if k == 0 {
            lemma_digits4_lt(x, y);
        } else {
            lemma_digits2_lt(x, y);
        }
        if k < 5 {
            lemma_key_lt_heads(dx, sep + iso_tail(f, k + 1), dy, sep + iso_tail(g, k + 1));
        } else {
            lemma_key_lt_heads(dx, sep, dy, sep);
        }
    } else {
        assert(x == y);
        assert(k < 5);
        lemma_iso_tail_lt(f, g, k + 1);
        lemma_key_lt_same_prefix(sep, iso_tail(f, k + 1), iso_tail(g, k + 1));
        lemma_key_lt_same_prefix(dx, sep + iso_tail(f, k + 1), sep + iso_tail(g, k + 1));
    }
}

/// Later times give later stamps: from 1970 up to the end of the year 9999
/// the stamp of an earlier second sorts before the stamp of a later one,
/// so the text order is the time order and no two seconds share a stamp.
pub proof fn lemma_iso_order(a: int, b: int)
    requires
        0 <= a < b <= 253402300799,
    ensures
        key_lt(iso_text(civil(a)), iso_text(civil(b))),
        iso_text(civil(a)) != iso_text(civil(b)),
{
    lemma_civil_ranges(a);
    lemma_civil_ranges(b);
    lemma_civil_lt(a, b);
    let f = civil(a);
    let g = civil(b);
    lemma_iso_tail_text(f);
    lemma_iso_tail_text(g);
    lemma_iso_tail_lt(f, g, 0);
    lemma_key_lt_irrefl(iso_text(f));
}

} // verus!
