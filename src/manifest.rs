//! The manifest: an append-only text log of live segments, one
//! `seq_high|level|filename` line each.
use crate::codec::{append_bytes, copy_range};
use crate::text::{lossy_text, text_from_bytes};
use vstd::prelude::*;
use vstd::string::StringSliceAdditionalSpecFns;

verus! {

/// One listed segment.
pub struct ManifestEntry {
    pub seq_high: u64,
    pub level: usize,
    pub filename: String,
}

pub const PIPE: u8 = 124;

pub const NEWLINE: u8 = 10;

/// The ASCII decimal digits of `n`.
pub open spec fn dec(n: nat) -> Seq<u8>
    decreases n,
{
    if n < 10 {
        seq![(48 + n) as u8]
    } else {
        dec(n / 10) + seq![(48 + n % 10) as u8]
    }
}

/// `dec(n)` with zeros in front up to `width` digits.
pub open spec fn dec_padded(n: nat, width: nat) -> Seq<u8> {
    let d = dec(n);
    if d.len() >= width {
        d
    } else {
        Seq::new((width - d.len()) as nat, |i: int| 48u8) + d
    }
}

/// Appends the decimal digits of `n`.
pub fn push_decimal(out: &mut Vec<u8>, n: u64)
    ensures
        final(out)@ == old(out)@ + dec(n as nat),
    decreases n,
{
    if n < 10 {
        out.push((48 + n) as u8);
    } else {
        push_decimal(out, n / 10);
        out.push((48 + n % 10) as u8);
    }
}

/// The decimal digits of `n`, zero-padded to `width`.
pub fn decimal_padded(n: u64, width: usize) -> (r: Vec<u8>)
    ensures
        r@ == dec_padded(n as nat, width as nat),
{
    let mut d: Vec<u8> = Vec::new();
    push_decimal(&mut d, n);
    assert(d@ == dec(n as nat));
    let mut r: Vec<u8> = Vec::new();
    if d.len() < width {
        let pad = width - d.len();
        let mut i: usize = 0;
        while i < pad
            invariant
                i <= pad,
                r@ == Seq::new(i as nat, |j: int| 48u8),
            decreases pad - i,
        {
            r.push(48u8);
            i = i + 1;
            assert(r@ =~= Seq::new(i as nat, |j: int| 48u8));
        }
    }
    append_bytes(&mut r, d.as_slice());
    r
}

/// The manifest line of an entry: `seq_high|level|filename` and a newline.
pub open spec fn entry_line(seq_high: u64, level: usize, filename: Seq<u8>) -> Seq<u8> {
    dec(seq_high as nat) + seq![PIPE] + dec(level as nat) + seq![PIPE] + filename + seq![NEWLINE]
}

/// The bytes of the manifest line for an entry.
pub fn format_entry(seq_high: u64, level: usize, filename: &str) -> (r: Vec<u8>)
    ensures
        r@ == entry_line(seq_high, level, filename.spec_bytes()),
{
    let mut r: Vec<u8> = Vec::new();
    push_decimal(&mut r, seq_high);
    r.push(PIPE);
    push_decimal(&mut r, level as u64);
    r.push(PIPE);
    append_bytes(&mut r, filename.as_bytes());
    r.push(NEWLINE);
    r
}

/// The name of a segment file: `l<level>_<seq, ten digits>.seg`.
pub open spec fn segment_file_name(level: usize, seq: u64) -> Seq<u8> {
    seq![108u8] + dec(level as nat) + seq![95u8] + dec_padded(seq as nat, 10) + seq![46u8, 115u8, 101u8, 103u8]
}

/// The name of the segment file sealed at `seq` into `level`.
pub fn file_name(level: usize, seq: u64) -> (r: String)
    ensures
        r@ == lossy_text(segment_file_name(level, seq)),
{
    let mut b: Vec<u8> = Vec::new();
    b.push(108u8);
    push_decimal(&mut b, level as u64);
    b.push(95u8);
    let d = decimal_padded(seq, 10);
    append_bytes(&mut b, d.as_slice());
    b.push(46u8);
    b.push(115u8);
    b.push(101u8);
    b.push(103u8);
    assert(b@ == segment_file_name(level, seq));
    text_from_bytes(b.as_slice())
}

/// Whether `b` is ASCII white space: tab, newline, vertical tab, form feed,
/// carriage return or space.
pub open spec fn is_ascii_space(b: u8) -> bool {
    b == 32 || (9 <= b && b <= 13)
}

/// Whether the two bytes encode U+0085 or U+00A0.
pub open spec fn ws2(a: u8, b: u8) -> bool {
    a == 0xc2 && (b == 0x85 || b == 0xa0)
}

/// Whether the three bytes encode U+1680, U+2000..U+200A, U+2028, U+2029,
/// U+202F, U+205F or U+3000.
pub open spec fn ws3(a: u8, b: u8, c: u8) -> bool {
    (a == 0xe1 && b == 0x9a && c == 0x80) || (a == 0xe2 && b == 0x80 && ((0x80 <= c && c <= 0x8a) || c == 0xa8 || c == 0xa9 || c == 0xaf))
        || (a == 0xe2 && b == 0x81 && c == 0x9f) || (a == 0xe3 && b == 0x80 && c == 0x80)
}

/// The length of the white-space character (Unicode `White_Space`) that
/// starts at `i`, or 0.
pub open spec fn ws_len_at(s: Seq<u8>, i: int) -> int {
    if 0 <= i < s.len() && is_ascii_space(s[i]) {
        1
    } else if 0 <= i && i + 2 <= s.len() && ws2(s[i], s[i + 1]) {
        2
    } else if 0 <= i && i + 3 <= s.len() && ws3(s[i], s[i + 1], s[i + 2]) {
        3
    } else {
        0
    }
}

/// The length of the white-space character that ends at `e`, or 0.
pub open spec fn ws_len_before(s: Seq<u8>, e: int) -> int {
    if 1 <= e <= s.len() && is_ascii_space(s[e - 1]) {
        1
    } else if 2 <= e <= s.len() && ws2(s[e - 2], s[e - 1]) {
        2
    } else if 3 <= e <= s.len() && ws3(s[e - 3], s[e - 2], s[e - 1]) {
        3
    } else {
        0
    }
}

fn is_ascii_space_byte(b: u8) -> (r: bool)
    ensures
        r == is_ascii_space(b),
{
    b == 32 || (9 <= b && b <= 13)
}

fn ws_at(s: &[u8], i: usize) -> (r: usize)
    requires
        i <= s@.len(),
    ensures
        r == ws_len_at(s@, i as int),
{
    let n = s.len();
    if i < n && is_ascii_space_byte(s[i]) {
        1
    } else if n - i >= 2 && s[i] == 0xc2 && (s[i + 1] == 0x85 || s[i + 1] == 0xa0) {
        2
    } else if n - i >= 3 && ((s[i] == 0xe1 && s[i + 1] == 0x9a && s[i + 2] == 0x80) || (s[i] == 0xe2
        && s[i + 1] == 0x80 && ((0x80 <= s[i + 2] && s[i + 2] <= 0x8a) || s[i + 2] == 0xa8 || s[i + 2]
        == 0xa9 || s[i + 2] == 0xaf)) || (s[i] == 0xe2 && s[i + 1] == 0x81 && s[i + 2] == 0x9f) || (s[i]
        == 0xe3 && s[i + 1] == 0x80 && s[i + 2] == 0x80)) {
        3
    } else {
        0
    }
}

fn ws_before(s: &[u8], e: usize) -> (r: usize)
    requires
        e <= s@.len(),
    ensures
        r == ws_len_before(s@, e as int),
{
    if e >= 1 && is_ascii_space_byte(s[e - 1]) {
        1
    } else if e >= 2 && s[e - 2] == 0xc2 && (s[e - 1] == 0x85 || s[e - 1] == 0xa0) {
        2
    } else if e >= 3 && ((s[e - 3] == 0xe1 && s[e - 2] == 0x9a && s[e - 1] == 0x80) || (s[e - 3] == 0xe2
        && s[e - 2] == 0x80 && ((0x80 <= s[e - 1] && s[e - 1] <= 0x8a) || s[e - 1] == 0xa8 || s[e - 1]
        == 0xa9 || s[e - 1] == 0xaf)) || (s[e - 3] == 0xe2 && s[e - 2] == 0x81 && s[e - 1] == 0x9f) || (s[e
        - 3] == 0xe3 && s[e - 2] == 0x80 && s[e - 1] == 0x80)) {
        3
    } else {
        0
    }
}

pub open spec fn is_digit(b: u8) -> bool {
    48 <= b <= 57
}

/// The number that a run of decimal digits spells.
pub open spec fn digits_value(s: Seq<u8>) -> nat
    decreases s.len(),
{
    if s.len() == 0 {
        0
    } else {
        digits_value(s.drop_last()) * 10 + (s.last() - 48) as nat
    }
}

/// Whether `s` is an unsigned decimal number (an optional `+`, then at
/// least one digit) that is at most `max`.
pub open spec fn number_ok(s: Seq<u8>, max: nat) -> bool {
    digits_ok(strip_plus(s), max)
}

/// `s` without a leading `+`.
pub open spec fn strip_plus(s: Seq<u8>) -> Seq<u8> {
    if s.len() > 0 && s[0] == 43 { s.drop_first() } else { s }
}

/// At least one digit, nothing else, spelling at most `max`.
pub open spec fn digits_ok(d: Seq<u8>, max: nat) -> bool {
    d.len() > 0 && (forall|i: int| 0 <= i < d.len() ==> is_digit(#[trigger] d[i])) && digits_value(d) <= max
}

pub open spec fn number_value(s: Seq<u8>) -> nat {
    digits_value(strip_plus(s))
}

/// Reads an unsigned decimal number from `s[lo..hi]`; `None` unless
/// `number_ok` holds there with bound `max`.
fn parse_number(s: &[u8], lo: usize, hi: usize, max: u64) -> (r: Option<u64>)
    requires
        lo <= hi <= s@.len(),
    ensures
        match r {
            Some(v) => number_ok(s@.subrange(lo as int, hi as int), max as nat) && v == number_value(s@.subrange(lo as int, hi as int)),
            None => !number_ok(s@.subrange(lo as int, hi as int), max as nat),
        },
{
    let ghost t = s@.subrange(lo as int, hi as int);
    let mut start = lo;
    if lo < hi && s[lo] == 43 {
        start = lo + 1;
    }
    let ghost d = s@.subrange(start as int, hi as int);
    proof {
        assert(t.len() > 0 ==> t[0] == s@[lo as int]);
        if lo < hi && s@[lo as int] == 43 {
            assert(t.drop_first() == d);
        } else {
            assert(t == d);
        }
    }
    if start == hi {
        return None;
    }
    let mut v: u64 = 0;
    let mut i: usize = start;
    while i < hi
        invariant
            start <= i <= hi <= s@.len(),
            d == s@.subrange(start as int, hi as int),
            strip_plus(t) == d,
            t == s@.subrange(lo as int, hi as int),
            forall|j: int| start <= j < i ==> is_digit(#[trigger] s@[j]),
            v == digits_value(s@.subrange(start as int, i as int)),
            v <= max,
        decreases hi - i,
    {
        let c = s[i];
        if c < 48 || c > 57 {
            proof {
                assert(d[i - start] == c);
                assert(!is_digit(d[i - start]));
                assert(!number_ok(t, max as nat));
            }
            return None;
        }
        let dig = (c - 48) as u64;
        proof {
            let p = s@.subrange(start as int, i + 1);
            assert(p.drop_last() == s@.subrange(start as int, i as int));
        }
        if dig > max || v > (max - dig) / 10 {
            proof {
                if dig <= max {
                    assert(v * 10 + dig > max) by (nonlinear_arith)
                        requires
                            v > (max - dig) / 10,
                            dig <= max,
                    ;
                }
                let k = i + 1;
                assert(digits_value(s@.subrange(start as int, k as int)) > max);
                assert(s@.subrange(start as int, k as int) == d.subrange(0, k - start));
                if forall|j: int| 0 <= j < d.len() ==> is_digit(#[trigger] d[j]) {
                    lemma_digits_grow(d, (k - start) as nat);
                }
                assert(!number_ok(t, max as nat));
            }
            return None;
        }
        proof {
            assert(v * 10 + dig <= max) by (nonlinear_arith)
                requires
                    v <= (max - dig) / 10,
                    dig <= max,
            ;
        }
        v = v * 10 + dig;
        i = i + 1;
    }
    proof {
        assert(s@.subrange(start as int, hi as int) == d);
        assert forall|j: int| 0 <= j < d.len() implies is_digit(#[trigger] d[j]) by {
            assert(d[j] == s@[start + j]);
        }
    }
    Some(v)
}

/// A longer run of digits spells at least as much as its front part.
proof fn lemma_digits_grow(d: Seq<u8>, k: nat)
    requires
        k <= d.len(),
        forall|i: int| 0 <= i < d.len() ==> is_digit(#[trigger] d[i]),
    ensures
        digits_value(d.subrange(0, k as int)) <= digits_value(d),
    decreases d.len(),
{
    if k < d.len() {
        assert(d.drop_last().subrange(0, k as int) == d.subrange(0, k as int));
        assert forall|i: int| 0 <= i < d.drop_last().len() implies is_digit(#[trigger] d.drop_last()[i]) by {
            assert(d.drop_last()[i] == d[i]);
        }
        lemma_digits_grow(d.drop_last(), k);
    } else {
        assert(d.subrange(0, k as int) == d);
    }
}

/// The first index at or after `from` where `s` holds `b`, or `s.len()`.
pub open spec fn find_byte(s: Seq<u8>, from: int, b: u8) -> int
    decreases s.len() - from,
{
    if from < 0 || from >= s.len() {
        s.len() as int
    } else if s[from] == b {
        from
    } else {
        find_byte(s, from + 1, b)
    }
}

fn find_byte_from(s: &[u8], from: usize, b: u8) -> (r: usize)
    requires
        from <= s@.len(),
    ensures
        r == find_byte(s@, from as int, b),
        from <= r <= s@.len(),
{
    let mut i = from;
    while i < s.len()
        invariant
            from <= i <= s@.len(),
            find_byte(s@, from as int, b) == find_byte(s@, i as int, b),
        decreases s@.len() - i,
    {
        if s[i] == b {
            return i;
        }
        i = i + 1;
    }
    i
}

/// The first index at or after `from` that starts no white-space
/// character, or `s.len()`.
pub open spec fn skip_spaces(s: Seq<u8>, from: int) -> int
    decreases s.len() - from,
{
    if from < 0 || from >= s.len() {
        s.len() as int
    } else if ws_len_at(s, from) > 0 {
        skip_spaces(s, from + ws_len_at(s, from))
    } else {
        from
    }
}

/// `end` moved back over white-space characters, not below `start`.
pub open spec fn trim_end(s: Seq<u8>, start: int, end: int) -> int
    decreases end - start,
{
    if end <= start || end > s.len() {
        end
    } else if ws_len_before(s, end) > 0 && end - ws_len_before(s, end) >= start {
        trim_end(s, start, end - ws_len_before(s, end))
    } else {
        end
    }
}

/// `s` without white space at either end.
pub open spec fn trimmed(s: Seq<u8>) -> Seq<u8> {
    let a = skip_spaces(s, 0);
    s.subrange(a, trim_end(s, a, s.len() as int))
}

/// A well-formed manifest line: `seq_high|level|filename` once trimmed,
/// with exactly two `|`.
pub open spec fn parse_line(l: Seq<u8>) -> Option<(u64, usize, Seq<u8>)> {
    let t = trimmed(l);
    let p1 = find_byte(t, 0, PIPE);
    let p2 = find_byte(t, p1 + 1, PIPE);
    if p1 >= t.len() || p2 >= t.len() || find_byte(t, p2 + 1, PIPE) < t.len() {
        None
    } else if number_ok(t.subrange(0, p1), u64::MAX as nat) && number_ok(t.subrange(p1 + 1, p2), usize::MAX as nat) {
        Some((number_value(t.subrange(0, p1)) as u64, number_value(t.subrange(p1 + 1, p2)) as usize, t.subrange(p2 + 1, t.len() as int)))
    } else {
        None
    }
}

/// The entries of the lines of `text` from `from` on; malformed lines are skipped.
pub open spec fn parse_lines(text: Seq<u8>, from: int) -> Seq<(u64, usize, Seq<u8>)>
    decreases text.len() - from,
{
    if from < 0 || from >= text.len() {
        seq![]
    } else {
        let nl = find_byte(text, from, NEWLINE);
        let rest = if from <= nl < text.len() { parse_lines(text, nl + 1) } else { seq![] };
        match parse_line(text.subrange(from, nl)) {
            Some(e) => seq![e] + rest,
            None => rest,
        }
    }
}

fn trim_bounds(l: &[u8]) -> (r: (usize, usize))
    ensures
        r.0 == skip_spaces(l@, 0),
        r.1 == trim_end(l@, r.0 as int, l@.len() as int),
        r.0 <= r.1 <= l@.len(),
{
    let mut a: usize = 0;
    loop
        invariant
            a <= l@.len(),
            skip_spaces(l@, 0) == skip_spaces(l@, a as int),
        ensures
            a <= l@.len(),
            skip_spaces(l@, 0) == a,
        decreases l@.len() - a,
    {
        if a >= l.len() {
            break;
        }
        let w = ws_at(l, a);
        if w == 0 {
            break;
        }
        a = a + w;
    }
    let mut e: usize = l.len();
    loop
        invariant
            a <= e <= l@.len(),
            trim_end(l@, a as int, l@.len() as int) == trim_end(l@, a as int, e as int),
        ensures
            a <= e <= l@.len(),
            trim_end(l@, a as int, l@.len() as int) == e,
        decreases e,
    {
        if e <= a {
            break;
        }
        let w = ws_before(l, e);
        if w == 0 || e - w < a {
            break;
        }
        e = e - w;
    }
    (a, e)
}

/// Reads one manifest line.
fn read_line(l: &[u8]) -> (r: Option<ManifestEntry>)
    ensures
        match r {
            Some(m) => parse_line(l@) matches Some((s, v, f)) && m.seq_high == s && m.level == v && m.filename@ == lossy_text(f),
            None => parse_line(l@) is None,
        },
{
    let (a, e) = trim_bounds(l);
    let t = copy_range(l, a, e);
    let n = t.len();
    let p1 = find_byte_from(t.as_slice(), 0, PIPE);
    if p1 >= n {
        return None;
    }
    let p2 = find_byte_from(t.as_slice(), p1 + 1, PIPE);
    if p2 >= n {
        return None;
    }
    let p3 = find_byte_from(t.as_slice(), p2 + 1, PIPE);
    if p3 < n {
        return None;
    }
    let seq_high = match parse_number(t.as_slice(), 0, p1, u64::MAX) {
        Some(v) => v,
        None => {
            return None;
        },
    };
    let level = match parse_number(t.as_slice(), p1 + 1, p2, usize::MAX as u64) {
        Some(v) => v as usize,
        None => {
            return None;
        },
    };
    let name = copy_range(t.as_slice(), p2 + 1, n);
    Some(ManifestEntry { seq_high, level, filename: text_from_bytes(name.as_slice()) })
}

/// The entries of a manifest file, in file order, skipping malformed lines.
pub fn parse_manifest(text: &[u8]) -> (r: Vec<ManifestEntry>)
    ensures
        r@.len() == parse_lines(text@, 0).len(),
        forall|i: int| 0 <= i < r@.len() ==> {
            let (s, v, f) = #[trigger] parse_lines(text@, 0)[i];
            r@[i].seq_high == s && r@[i].level == v && r@[i].filename@ == lossy_text(f)
        },
{
    let mut out: Vec<ManifestEntry> = Vec::new();
    let ghost done: Seq<(u64, usize, Seq<u8>)> = seq![];
    let n = text.len();
    let mut from: usize = 0;
    while from < n
        invariant
            n == text@.len(),
            from <= n,
            done + parse_lines(text@, from as int) == parse_lines(text@, 0),
            out@.len() == done.len(),
            forall|i: int| 0 <= i < out@.len() ==> {
                let (s, v, f) = #[trigger] done[i];
                out@[i].seq_high == s && out@[i].level == v && out@[i].filename@ == lossy_text(f)
            },
        decreases n - from,
    {
        let nl = find_byte_from(text, from, NEWLINE);
        let line = copy_range(text, from, nl);
        let ghost rest = if nl < n { parse_lines(text@, nl + 1) } else { seq![] };
        match read_line(line.as_slice()) {
            Some(m) => {
                let ghost e = parse_line(line@)->0;
                out.push(m);
                proof {
                    assert((done + seq![e]) + rest == done + (seq![e] + rest));
                    done = done + seq![e];
                }
            },
            None => {},
        }
        if nl >= n {
            proof {
                assert(parse_lines(text@, (nl + 1) as int) == Seq::<(u64, usize, Seq<u8>)>::empty());
                assert(done + seq![] == done);
            }
            from = n;
        } else {
            from = nl + 1;
        }
    }
    proof {
        assert(done + seq![] == done);
    }
    out
}

/// The digits of `n` are digits and spell `n`.
proof fn lemma_dec(n: nat)
    ensures
        dec(n).len() >= 1,
        forall|i: int| 0 <= i < dec(n).len() ==> is_digit(#[trigger] dec(n)[i]),
        digits_value(dec(n)) == n,
    decreases n,
{
    if n >= 10 {
        lemma_dec(n / 10);
        let d = dec(n);
        assert(d.drop_last() == dec(n / 10));
        assert(d.last() == (48 + n % 10) as u8);
        assert((d.last() - 48) as nat == n % 10);
        assert(n == (n / 10) * 10 + n % 10);
        assert(digits_value(d) == digits_value(d.drop_last()) * 10 + (d.last() - 48) as nat);
        assert(digits_value(d) == (n / 10) * 10 + n % 10);
        assert forall|i: int| 0 <= i < d.len() implies is_digit(#[trigger] d[i]) by {
            if i < d.len() - 1 {
                assert(d[i] == dec(n / 10)[i]);
            }
        }
    } else {
        assert(dec(n).drop_last() =~= Seq::<u8>::empty());
        assert(dec(n).last() == (48 + n) as u8);
        assert(digits_value(dec(n)) == digits_value(dec(n).drop_last()) * 10 + (dec(n).last() - 48) as nat);
        assert(digits_value(dec(n).drop_last()) == 0);
    }
}

/// `dec(n)` reads back as `n` wherever `n` is at most `max`.
proof fn lemma_dec_number(n: nat, max: nat)
    requires
        n <= max,
    ensures
        number_ok(dec(n), max),
        number_value(dec(n)) == n,
{
    lemma_dec(n);
    assert(is_digit(dec(n)[0]));
    assert(strip_plus(dec(n)) == dec(n));
}

/// The first `b` from `from` on is at `p` when none stands before it.
proof fn lemma_find_at(s: Seq<u8>, from: int, b: u8, p: int)
    requires
        0 <= from <= p <= s.len(),
        forall|j: int| from <= j < p ==> #[trigger] s[j] != b,
        p == s.len() || s[p] == b,
    ensures
        find_byte(s, from, b) == p,
    decreases p - from,
{
    if from < p {
        lemma_find_at(s, from + 1, b, p);
    }
}

/// A manifest line written for an entry reads back as that entry, when the
/// filename holds no `|` or newline and the line does not end in white space.
#[verifier::rlimit(100)]
pub proof fn lemma_manifest_round_trip(seq_high: u64, level: usize, filename: Seq<u8>)
    requires
        forall|i: int| 0 <= i < filename.len() ==> #[trigger] filename[i] != PIPE && filename[i] != NEWLINE,
        ({
            let core = dec(seq_high as nat) + seq![PIPE] + dec(level as nat) + seq![PIPE] + filename;
            ws_len_before(core, core.len() as int) == 0
        }),
    ensures
        parse_lines(entry_line(seq_high, level, filename), 0) == seq![(seq_high, level, filename)],
{
    let a = dec(seq_high as nat);
    let b = dec(level as nat);
    let core = a + seq![PIPE] + b + seq![PIPE] + filename;
    let t = entry_line(seq_high, level, filename);
    lemma_dec(seq_high as nat);
    lemma_dec(level as nat);
    assert(t == core.push(NEWLINE));
    let n = core.len() as int;
    let p1 = a.len() as int;
    let p2 = p1 + 1 + b.len();
    assert(core.len() == p2 + 1 + filename.len());
    assert forall|j: int| 0 <= j < n implies #[trigger] core[j] != NEWLINE && (j != p1 && j != p2 ==> core[j] != PIPE) by {
        if j < p1 {
            assert(core[j] == a[j]);
            assert(is_digit(a[j]));
        } else if p1 < j < p2 {
            assert(core[j] == b[j - p1 - 1]);
            assert(is_digit(b[j - p1 - 1]));
        } else if j > p2 {
            assert(core[j] == filename[j - p2 - 1]);
        }
    }
    assert forall|j: int| 0 <= j < n implies #[trigger] t[j] != NEWLINE by {
        assert(t[j] == core[j]);
    }
    lemma_find_at(t, 0, NEWLINE, n);
    assert(t.subrange(0, n) == core);
    assert(parse_lines(t, n + 1) == Seq::<(u64, usize, Seq<u8>)>::empty());
    assert(trimmed(core) == core) by {
        assert(core[0] == a[0]);
        assert(is_digit(core[0]));
        assert(ws_len_at(core, 0) == 0);
        assert(skip_spaces(core, 0) == 0);
        assert(trim_end(core, 0, n) == n);
        assert(core.subrange(0, n) == core);
    }
    // the two pipes
    lemma_find_at(core, 0, PIPE, p1);
    lemma_find_at(core, p1 + 1, PIPE, p2);
    lemma_find_at(core, p2 + 1, PIPE, n);
    assert(core.subrange(0, p1) == a);
    assert(core.subrange(p1 + 1, p2) == b);
    assert(core.subrange(p2 + 1, n) == filename);
    lemma_dec_number(seq_high as nat, u64::MAX as nat);
    lemma_dec_number(level as nat, usize::MAX as nat);
    assert(parse_line(core) == Some((seq_high, level, filename)));
    assert(seq![(seq_high, level, filename)] + Seq::<(u64, usize, Seq<u8>)>::empty() == seq![(seq_high, level, filename)]);
}

} // verus!
