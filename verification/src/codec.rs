//! The persisted form of the color index: a canonical JSON object, written
//! and read exactly, with the round trip proved.

use vstd::prelude::*;

use crate::color::Color;
use crate::index::{strictly_increasing, ColorIndex, IndexEntry};

verus! {

// The persisted color index is a single JSON object that maps the decimal
// tile identifier, as a string key, to the tile's representative color as a
// canonical uppercase "#RRGGBB" string. The stored form is canonical: no
// whitespace, identifiers in increasing order, no leading zeros — exactly
// what `store_index` emits and what `load_index` accepts.

/// The byte of the uppercase hex digit for a value below sixteen.
pub open spec fn hex_digit(v: int) -> u8 {
    if v < 10 {
        (48 + v) as u8
    } else {
        (55 + v) as u8
    }
}

/// The two uppercase hex digits of one channel byte.
pub open spec fn hex_byte(b: u8) -> Seq<u8> {
    seq![hex_digit(b as int / 16), hex_digit(b as int % 16)]
}

/// The canonical "#RRGGBB" text of a color.
pub open spec fn color_text(c: Color) -> Seq<u8> {
    seq![35u8] + hex_byte(c.r) + hex_byte(c.g) + hex_byte(c.b)
}

/// The canonical decimal digits of `n`, most significant first, with no
/// leading zeros.
pub open spec fn decimal(n: nat) -> Seq<u8>
    decreases n,
{
    if n < 10 {
        seq![(48 + n) as u8]
    } else {
        decimal(n / 10) + seq![(48 + n % 10) as u8]
    }
}

/// The stored text of one index entry: `"id":"#RRGGBB"`.
pub open spec fn entry_text(e: IndexEntry) -> Seq<u8> {
    seq![34u8] + decimal(e.id as nat) + seq![34u8, 58u8, 34u8] + color_text(e.color) + seq![34u8]
}

/// The stored text of the entries, joined by commas.
pub open spec fn entries_text(entries: Seq<IndexEntry>) -> Seq<u8>
    decreases entries.len(),
{
    if entries.len() == 0 {
        Seq::empty()
    } else if entries.len() == 1 {
        entry_text(entries[0])
    } else {
        entry_text(entries[0]) + seq![44u8] + entries_text(entries.skip(1))
    }
}

/// The canonical stored form of a whole index: the entries inside an
/// object's braces.
pub open spec fn index_text(entries: Seq<IndexEntry>) -> Seq<u8> {
    seq![123u8] + entries_text(entries) + seq![125u8]
}

/// Appends the canonical decimal digits of `n`.
fn push_decimal(out: &mut Vec<u8>, n: usize)
    ensures
        final(out)@ == old(out)@ + decimal(n as nat),
    decreases n,
{
    if n < 10 {
        out.push(48 + n as u8);
        assert(out@ =~= old(out)@ + decimal(n as nat));
    } else {
        push_decimal(out, n / 10);
        out.push(48 + (n % 10) as u8);
        assert(out@ =~= old(out)@ + decimal(n as nat));
    }
}

/// Appends the two uppercase hex digits of one channel byte.
fn push_hex_byte(out: &mut Vec<u8>, b: u8)
    ensures
        final(out)@ == old(out)@ + hex_byte(b),
{
    let hi = b / 16;
    let lo = b % 16;
    if hi < 10 {
        out.push(48 + hi);
    } else {
        out.push(55 + hi);
    }
    if lo < 10 {
        out.push(48 + lo);
    } else {
        out.push(55 + lo);
    }
    assert(out@ =~= old(out)@ + hex_byte(b));
}

/// Appends the canonical `"#RRGGBB"` text of a color, quotes excluded.
fn push_color(out: &mut Vec<u8>, c: Color)
    ensures
        final(out)@ == old(out)@ + color_text(c),
{
    out.push(35);
    push_hex_byte(out, c.r);
    push_hex_byte(out, c.g);
    push_hex_byte(out, c.b);
    assert(out@ =~= old(out)@ + color_text(c));
}

/// Appends the stored text of one entry.
fn push_entry(out: &mut Vec<u8>, e: IndexEntry)
    ensures
        final(out)@ == old(out)@ + entry_text(e),
{
    out.push(34);
    push_decimal(out, e.id);
    out.push(34);
    out.push(58);
    out.push(34);
    push_color(out, e.color);
    out.push(34);
    assert(out@ =~= old(out)@ + entry_text(e));
}

/// Appends the stored text of the entries from position `i` on.
fn push_entries(out: &mut Vec<u8>, entries: &Vec<IndexEntry>, i: usize)
    requires
        i <= entries@.len(),
    ensures
        final(out)@ == old(out)@ + entries_text(entries@.skip(i as int)),
    decreases entries@.len() - i,
{
    if i < entries.len() {
        push_entry(out, entries[i]);
        if i + 1 < entries.len() {
            out.push(44);
        }
        push_entries(out, entries, i + 1);
        proof {
            assert(entries@.skip(i as int)[0] == entries@[i as int]);
            assert(entries@.skip(i as int).skip(1) =~= entries@.skip(i + 1));
            assert(out@ =~= old(out)@ + entries_text(entries@.skip(i as int)));
        }
    } else {
        assert(entries@.skip(i as int) =~= Seq::<IndexEntry>::empty());
    }
}

/// Serializes the index into its canonical stored form: the exact byte
/// text that `index_text` defines. Two indices with the same entries store
/// to identical files, so rebuilding an unchanged index reproduces the
/// file byte for byte.
pub fn store_index(index: &ColorIndex) -> (out: Vec<u8>)
    ensures
        out@ == index_text(index@),
{
    let mut out: Vec<u8> = Vec::new();
    out.push(123);
    push_entries(&mut out, &index.entries, 0);
    out.push(125);
    proof {
        assert(index@.skip(0) =~= index@);
        assert(out@ =~= index_text(index@));
    }
    out
}

/// A decimal digit byte.
pub open spec fn is_digit(b: u8) -> bool {
    48 <= b <= 57
}

/// An uppercase hex digit byte.
pub open spec fn is_upper_hex(b: u8) -> bool {
    is_digit(b) || (65 <= b <= 70)
}

/// The value of an uppercase hex digit byte.
pub open spec fn hex_value(b: u8) -> int {
    if is_digit(b) {
        b - 48
    } else {
        b - 55
    }
}

/// Where the run of decimal digit bytes that starts at `i` ends.
pub open spec fn digit_run_end(s: Seq<u8>, i: int) -> int
    decreases s.len() - i,
{
    if i < 0 || i >= s.len() || !is_digit(s[i]) {
        i
    } else {
        digit_run_end(s, i + 1)
    }
}

/// The number denoted by the digit bytes `s[i..j]`, most significant first.
pub open spec fn digits_value(s: Seq<u8>, i: int, j: int) -> int
    decreases j - i,
{
    if j <= i {
        0
    } else {
        digits_value(s, i, j - 1) * 10 + (s[j - 1] - 48)
    }
}

/// Parses one stored entry at position `pos`: the entry and the position
/// just past its closing quote. The identifier must be canonical (no
/// leading zero), fit the machine, and be at least `min_id`, which keeps
/// stored identifiers strictly increasing.
pub open spec fn entry_at(s: Seq<u8>, pos: int, min_id: int) -> Option<(IndexEntry, int)> {
    let dstart = pos + 1;
    let dend = digit_run_end(s, dstart);
    let k = dend - dstart;
    let v = digits_value(s, dstart, dend);
    if pos < 0 || pos >= s.len() || s[pos] != 34 {
        None
    } else if k < 1 {
        None
    } else if s[dstart] == 48 && k != 1 {
        None
    } else if v > usize::MAX as int {
        None
    } else if v < min_id {
        None
    } else if s.len() - dend < 11 {
        None
    } else if !(s[dend] == 34 && s[dend + 1] == 58 && s[dend + 2] == 34 && s[dend + 3] == 35) {
        None
    } else if !(is_upper_hex(s[dend + 4]) && is_upper_hex(s[dend + 5]) && is_upper_hex(
        s[dend + 6],
    ) && is_upper_hex(s[dend + 7]) && is_upper_hex(s[dend + 8]) && is_upper_hex(s[dend + 9])) {
        None
    } else if s[dend + 10] != 34 {
        None
    } else {
        Some(
            (
                IndexEntry {
                    id: v as usize,
                    color: Color {
                        r: (hex_value(s[dend + 4]) * 16 + hex_value(s[dend + 5])) as u8,
                        g: (hex_value(s[dend + 6]) * 16 + hex_value(s[dend + 7])) as u8,
                        b: (hex_value(s[dend + 8]) * 16 + hex_value(s[dend + 9])) as u8,
                    },
                },
                dend + 11,
            ),
        )
    }
}

/// Parses the stored entries from `pos` up to a closing brace that ends the
/// text: the remaining entries, in order, with identifiers at least
/// `min_id` and strictly increasing.
pub open spec fn entries_from(s: Seq<u8>, pos: int, min_id: int) -> Option<Seq<IndexEntry>>
    decreases s.len() - pos,
{
    match entry_at(s, pos, min_id) {
        None => None,
        Some((e, end)) => {
            if end == s.len() - 1 && s[end] == 125 {
                Some(seq![e])
            } else if end < s.len() && s[end] == 44 {
                match entries_from(s, end + 1, e.id + 1) {
                    None => None,
                    Some(rest) => Some(seq![e] + rest),
                }
            } else {
                None
            }
        },
    }
}

/// What a stored index file denotes: the entry sequence, exactly when the
/// bytes are the canonical stored form of an index.
pub open spec fn parsed_index(s: Seq<u8>) -> Option<Seq<IndexEntry>> {
    if s.len() >= 2 && s[0] == 123 {
        if s.len() == 2 && s[1] == 125 {
            Some(Seq::empty())
        } else {
            entries_from(s, 1, 0)
        }
    } else {
        None
    }
}

/// The stored index file does not denote an index: a configuration error
/// that a build run reports before any raster work begins.
#[derive(Clone, Copy, PartialEq, Eq, Structural, Debug)]
pub enum LoadError {
    Malformed,
}

/// The exec value of one uppercase hex digit byte.
fn hex_digit_value(b: u8) -> (v: u8)
    requires
        is_upper_hex(b),
    ensures
        v == hex_value(b),
        v < 16,
{
    if b < 58 {
        b - 48
    } else {
        b - 55
    }
}

/// Parses one stored entry at `pos`, exactly as `entry_at` defines it.
fn parse_entry(bytes: &[u8], pos: usize, min_id: usize) -> (r: Option<(IndexEntry, usize)>)
    requires
        pos <= bytes@.len(),
    ensures
        match r {
            Some(p) => entry_at(bytes@, pos as int, min_id as int) == Some((p.0, p.1 as int))
                && pos < p.1 <= bytes@.len(),
            None => entry_at(bytes@, pos as int, min_id as int) is None,
        },
{
    let n = bytes.len();
    if pos >= n || bytes[pos] != 34 {
        return None;
    }
    let dstart = pos + 1;
    let mut dend: usize = dstart;
    let mut value: u128 = 0;
    let mut overflow = false;
    while dend < n && bytes[dend] >= 48 && bytes[dend] <= 57
        invariant
            bytes@.len() == n,
            dstart <= dend <= n,
            digit_run_end(bytes@, dstart as int) == digit_run_end(bytes@, dend as int),
            !overflow ==> value == digits_value(bytes@, dstart as int, dend as int) && value
                <= usize::MAX as u128,
            overflow ==> digits_value(bytes@, dstart as int, dend as int) > usize::MAX as int,
        decreases n - dend,
    {
        let d = bytes[dend] - 48;
        if !overflow {
            let nv: u128 = value * 10 + d as u128;
            if nv > usize::MAX as u128 {
                overflow = true;
            } else {
                value = nv;
            }
        }
        dend = dend + 1;
    }
    assert(digit_run_end(bytes@, dend as int) == dend);
    let k = dend - dstart;
    if k < 1 {
        return None;
    }
    if bytes[dstart] == 48 && k != 1 {
        return None;
    }
    if overflow {
        return None;
    }
    let id = value as usize;
    if id < min_id {
        return None;
    }
    if n - dend < 11 {
        return None;
    }
    if bytes[dend] != 34 || bytes[dend + 1] != 58 || bytes[dend + 2] != 34 || bytes[dend + 3]
        != 35 {
        return None;
    }
    let h0 = bytes[dend + 4];
    let h1 = bytes[dend + 5];
    let h2 = bytes[dend + 6];
    let h3 = bytes[dend + 7];
    let h4 = bytes[dend + 8];
    let h5 = bytes[dend + 9];
    if !(is_upper_hex_exec(h0) && is_upper_hex_exec(h1) && is_upper_hex_exec(h2)
        && is_upper_hex_exec(h3) && is_upper_hex_exec(h4) && is_upper_hex_exec(h5)) {
        return None;
    }
    if bytes[dend + 10] != 34 {
        return None;
    }
    let color = Color {
        r: hex_digit_value(h0) * 16 + hex_digit_value(h1),
        g: hex_digit_value(h2) * 16 + hex_digit_value(h3),
        b: hex_digit_value(h4) * 16 + hex_digit_value(h5),
    };
    Some((IndexEntry { id, color }, dend + 11))
}

/// The exec test for an uppercase hex digit byte.
fn is_upper_hex_exec(b: u8) -> (r: bool)
    ensures
        r == is_upper_hex(b),
{
    (48 <= b && b <= 57) || (65 <= b && b <= 70)
}

/// Deserializes a stored index file. Succeeds exactly when the bytes are
/// the canonical stored form of an index, and returns that index, with its
/// identifiers strictly increasing; any other input is a malformed index
/// file, a configuration error. Loading what `store_index` produced gives
/// back an index with the same entries.
pub fn load_index(bytes: &[u8]) -> (r: Result<ColorIndex, LoadError>)
    ensures
        match r {
            Ok(index) => parsed_index(bytes@) == Some(index@) && index.well_formed(),
            Err(e) => parsed_index(bytes@) is None && e == LoadError::Malformed,
        },
{
    let n = bytes.len();
    if n < 2 || bytes[0] != 123 {
        return Err(LoadError::Malformed);
    }
    if n == 2 {
        if bytes[1] == 125 {
            return Ok(ColorIndex { entries: Vec::new() });
        }
        return Err(LoadError::Malformed);
    }
    let mut entries: Vec<IndexEntry> = Vec::new();
    let mut pos: usize = 1;
    let mut min_id: usize = 0;
    proof {
        if entries_from(bytes@, 1, 0) is Some {
            let rest = entries_from(bytes@, 1, 0)->Some_0;
            assert(Seq::<IndexEntry>::empty() + rest =~= rest);
        }
    }
    loop
        invariant
            bytes@.len() == n,
            n > 2,
            1 <= pos <= n,
            parsed_index(bytes@) == match entries_from(bytes@, pos as int, min_id as int) {
                None => None::<Seq<IndexEntry>>,
                Some(rest) => Some(entries@ + rest),
            },
            strictly_increasing(entries@),
            forall|q: int| 0 <= q < entries@.len() ==> (#[trigger] entries@[q]).id < min_id,
        decreases n - pos,
    {
        let ghost prev_entries = entries@;
        match parse_entry(bytes, pos, min_id) {
            None => {
                return Err(LoadError::Malformed);
            },
            Some((e, end)) => {
                entries.push(e);
                proof {
                    assert(entries@ =~= prev_entries + seq![e]);
                }
                if end == n - 1 {
                    if bytes[end] == 125 {
                        proof {
                            assert(entries_from(bytes@, pos as int, min_id as int) == Some(
                                seq![e],
                            ));
                            assert(prev_entries + seq![e] =~= entries@);
                        }
                        return Ok(ColorIndex { entries });
                    }
                    proof {
                        if end + 1 < n && bytes@[end as int] == 44 {
                        }
                        assert(entries_from(bytes@, pos as int, min_id as int) is None);
                    }
                    return Err(LoadError::Malformed);
                } else if end < n && bytes[end] == 44 {
                    if e.id == usize::MAX {
                        proof {
                            assert(entry_at(bytes@, end + 1, e.id + 1) is None);
                            assert(entries_from(bytes@, pos as int, min_id as int) is None);
                        }
                        return Err(LoadError::Malformed);
                    }
                    proof {
                        if entries_from(bytes@, end + 1, e.id + 1) is Some {
                            let rest = entries_from(bytes@, end + 1, e.id + 1)->Some_0;
                            assert(entries_from(bytes@, pos as int, min_id as int) == Some(
                                seq![e] + rest,
                            ));
                            assert(prev_entries + (seq![e] + rest) =~= entries@ + rest);
                        } else {
                            assert(entries_from(bytes@, pos as int, min_id as int) is None);
                        }
                    }
                    pos = end + 1;
                    min_id = e.id + 1;
                } else {
                    proof {
                        assert(entries_from(bytes@, pos as int, min_id as int) is None);
                    }
                    return Err(LoadError::Malformed);
                }
            },
        }
    }
}

/// Every byte of a canonical decimal text is a digit, and only the text of
/// zero starts with the zero digit.
proof fn lemma_decimal_shape(n: nat)
    ensures
        decimal(n).len() >= 1,
        forall|i: int| 0 <= i < decimal(n).len() ==> is_digit(#[trigger] decimal(n)[i]),
        n >= 1 ==> decimal(n)[0] != 48,
        n < 10 ==> decimal(n).len() == 1,
    decreases n,
{
    if n >= 10 {
        lemma_decimal_shape(n / 10);
        let prev = decimal(n / 10);
        let full = decimal(n);
        assert(full == prev + seq![(48 + n % 10) as u8]);
        assert forall|i: int| 0 <= i < full.len() implies is_digit(#[trigger] full[i]) by {
            if i < prev.len() {
                assert(full[i] == prev[i]);
            }
        }
        assert(full[0] == prev[0]);
    }
}

/// Reading back the digit bytes of a canonical decimal text yields the
/// number they were written from.
proof fn lemma_decimal_value(s: Seq<u8>, i: int, j: int, n: nat)
    requires
        0 <= i <= j <= s.len(),
        s.subrange(i, j) == decimal(n),
    ensures
        digits_value(s, i, j) == n,
    decreases n,
{
    lemma_decimal_shape(n);
    assert(j - i == decimal(n).len());
    if n < 10 {
        assert(s.subrange(i, j)[0] == s[i]);
        assert(s[i] == decimal(n)[0]);
        assert(digits_value(s, i, i) == 0);
        assert(digits_value(s, i, j) == digits_value(s, i, i) * 10 + (s[i] - 48));
    } else {
        lemma_decimal_shape(n / 10);
        let prev = decimal(n / 10);
        assert(decimal(n) == prev + seq![(48 + n % 10) as u8]);
        assert(s.subrange(i, j - 1) =~= prev) by {
            assert forall|q: int| 0 <= q < j - 1 - i implies s.subrange(i, j - 1)[q] == prev[q] by {
                assert(s.subrange(i, j - 1)[q] == s[i + q]);
                assert(s.subrange(i, j)[q] == s[i + q]);
                assert(s.subrange(i, j)[q] == decimal(n)[q]);
                assert(decimal(n)[q] == prev[q]);
            }
        }
        lemma_decimal_value(s, i, j - 1, n / 10);
        assert(s.subrange(i, j)[j - 1 - i] == s[j - 1]);
        assert(s[j - 1] == decimal(n)[j - 1 - i]);
        assert(s[j - 1] == (48 + n % 10) as u8);
        assert(digits_value(s, i, j) == digits_value(s, i, j - 1) * 10 + (s[j - 1] - 48));
        vstd::arithmetic::div_mod::lemma_fundamental_div_mod(n as int, 10);
    }
}

/// A run of digit bytes followed by a non-digit (or the end) is exactly
/// where the digit run ends.
proof fn lemma_digit_run(s: Seq<u8>, i: int, j: int)
    requires
        0 <= i <= j <= s.len(),
        forall|q: int| i <= q < j ==> is_digit(#[trigger] s[q]),
        j == s.len() || !is_digit(s[j]),
    ensures
        digit_run_end(s, i) == j,
    decreases j - i,
{
    if i < j {
        lemma_digit_run(s, i + 1, j);
    }
}

/// The stored text of an entry parses back to that entry, whatever bytes
/// follow it, as long as its identifier clears the threshold.
proof fn lemma_entry_at_of_text(s: Seq<u8>, pos: int, e: IndexEntry, min_id: int)
    requires
        0 <= pos,
        pos + entry_text(e).len() <= s.len(),
        s.subrange(pos, pos + entry_text(e).len()) == entry_text(e),
        min_id <= e.id,
    ensures
        entry_at(s, pos, min_id) == Some((e, pos + entry_text(e).len())),
{
    let t = entry_text(e);
    let d = decimal(e.id as nat);
    let k = d.len() as int;
    let tlen = t.len() as int;
    lemma_decimal_shape(e.id as nat);
    assert(tlen == k + 12);
    assert forall|q: int| 0 <= q < tlen implies s[pos + q] == t[q] by {
        assert(s.subrange(pos, pos + tlen)[q] == t[q]);
    }
    assert(t[0] == 34);
    assert forall|q: int| 0 <= q < k implies t[1 + q] == d[q] by {
        assert((seq![34u8] + d)[1 + q] == d[q]);
    }
    assert forall|q: int| pos + 1 <= q < pos + 1 + k implies is_digit(#[trigger] s[q]) by {
        assert(s[q] == t[q - pos]);
        assert(t[q - pos] == d[q - pos - 1]);
    }
    assert(t[1 + k] == 34);
    assert(!is_digit(s[pos + 1 + k]));
    lemma_digit_run(s, pos + 1, pos + 1 + k);
    assert(s.subrange(pos + 1, pos + 1 + k) =~= d) by {
        assert forall|q: int| 0 <= q < k implies s.subrange(pos + 1, pos + 1 + k)[q] == d[q] by {
            assert(s.subrange(pos + 1, pos + 1 + k)[q] == s[pos + 1 + q]);
            assert(s[pos + 1 + q] == t[1 + q]);
        }
    }
    lemma_decimal_value(s, pos + 1, pos + 1 + k, e.id as nat);
    if e.id >= 1 {
        assert(s[pos + 1] == d[0]);
    } else {
        assert(k == 1);
    }
    let dend = pos + 1 + k;
    assert(t[k + 2] == 58 && t[k + 3] == 34 && t[k + 4] == 35);
    let c = e.color;
    assert(t[k + 5] == hex_digit(c.r as int / 16) && t[k + 6] == hex_digit(c.r as int % 16));
    assert(t[k + 7] == hex_digit(c.g as int / 16) && t[k + 8] == hex_digit(c.g as int % 16));
    assert(t[k + 9] == hex_digit(c.b as int / 16) && t[k + 10] == hex_digit(c.b as int % 16));
    assert(t[k + 11] == 34);
    lemma_hex_byte_round_trip(c.r);
    lemma_hex_byte_round_trip(c.g);
    lemma_hex_byte_round_trip(c.b);
    assert(entry_at(s, pos, min_id) == Some((e, pos + tlen)));
}

/// An uppercase hex pair written from a byte reads back as that byte.
proof fn lemma_hex_byte_round_trip(b: u8)
    ensures
        is_upper_hex(hex_digit(b as int / 16)),
        is_upper_hex(hex_digit(b as int % 16)),
        hex_value(hex_digit(b as int / 16)) * 16 + hex_value(hex_digit(b as int % 16)) == b,
{
    assert(0 <= b as int / 16 < 16 && 0 <= b as int % 16 < 16);
    assert((b as int / 16) * 16 + b as int % 16 == b) by (nonlinear_arith);
}

/// The stored text of a strictly increasing entry run, closed by the final
/// brace, parses back to exactly those entries.
proof fn lemma_entries_from_of_text(s: Seq<u8>, pos: int, es: Seq<IndexEntry>, min_id: int)
    requires
        0 <= pos <= s.len(),
        es.len() >= 1,
        strictly_increasing(es),
        min_id <= es[0].id,
        s.subrange(pos, s.len() as int) == entries_text(es) + seq![125u8],
    ensures
        entries_from(s, pos, min_id) == Some(es),
    decreases es.len(),
{
    let suffix = entries_text(es) + seq![125u8];
    let t = entry_text(es[0]);
    let tlen = t.len() as int;
    assert(s.subrange(pos, s.len() as int).len() == s.len() - pos);
    assert(suffix.len() == s.len() - pos);
    assert forall|q: int| 0 <= q < suffix.len() implies s[pos + q] == suffix[q] by {
        assert(s.subrange(pos, s.len() as int)[q] == suffix[q]);
    }
    if es.len() == 1 {
        assert(entries_text(es) == t);
        assert(s.len() - pos == tlen + 1);
        assert(s.subrange(pos, pos + tlen) =~= t) by {
            assert forall|q: int| 0 <= q < tlen implies s.subrange(pos, pos + tlen)[q] == t[q] by {
                assert(s[pos + q] == suffix[q]);
                assert(suffix[q] == t[q]);
            }
        }
        lemma_entry_at_of_text(s, pos, es[0], min_id);
        assert(s[pos + tlen] == suffix[tlen]);
        assert(suffix[tlen] == 125);
        assert(entries_from(s, pos, min_id) == Some(seq![es[0]]));
        assert(seq![es[0]] =~= es);
    } else {
        let rest = es.skip(1);
        assert(entries_text(es) == t + seq![44u8] + entries_text(rest));
        assert(entries_text(es).len() == tlen + 1 + entries_text(rest).len());
        assert(suffix.len() == s.len() - pos);
        assert(pos + tlen <= s.len());
        assert(s.subrange(pos, pos + tlen) =~= t) by {
            assert forall|q: int| 0 <= q < tlen implies s.subrange(pos, pos + tlen)[q] == t[q] by {
                assert(s.subrange(pos, pos + tlen)[q] == s[pos + q]);
                assert(s[pos + q] == suffix[q]);
                assert(suffix[q] == entries_text(es)[q]);
                assert(entries_text(es)[q] == ((t + seq![44u8]) + entries_text(rest))[q]);
                assert(((t + seq![44u8]) + entries_text(rest))[q] == (t + seq![44u8])[q]);
                assert((t + seq![44u8])[q] == t[q]);
            }
        }
        lemma_entry_at_of_text(s, pos, es[0], min_id);
        let end = pos + tlen;
        assert(s[end] == suffix[tlen]);
        assert(suffix[tlen] == entries_text(es)[tlen]);
        assert(entries_text(es)[tlen] == ((t + seq![44u8]) + entries_text(rest))[tlen]);
        assert(((t + seq![44u8]) + entries_text(rest))[tlen] == (t + seq![44u8])[tlen]);
        assert((t + seq![44u8])[tlen] == 44);
        assert(end < s.len());
        assert(end != s.len() - 1 || s[end] != 125);
        assert(s.subrange(end + 1, s.len() as int) =~= entries_text(rest) + seq![125u8]) by {
            assert forall|q: int| 0 <= q < s.len() - end - 1 implies s.subrange(
                end + 1,
                s.len() as int,
            )[q] == (entries_text(rest) + seq![125u8])[q] by {
                assert(s.subrange(end + 1, s.len() as int)[q] == s[end + 1 + q]);
                assert(s[end + 1 + q] == suffix[tlen + 1 + q]);
                if tlen + 1 + q < entries_text(es).len() {
                    assert(suffix[tlen + 1 + q] == entries_text(es)[tlen + 1 + q]);
                    assert(entries_text(es)[tlen + 1 + q] == ((t + seq![44u8])
                        + entries_text(rest))[tlen + 1 + q]);
                    assert(((t + seq![44u8]) + entries_text(rest))[tlen + 1 + q]
                        == entries_text(rest)[q]);
                    assert((entries_text(rest) + seq![125u8])[q] == entries_text(rest)[q]);
                } else {
                    assert(tlen + 1 + q == entries_text(es).len());
                    assert(suffix[tlen + 1 + q] == 125);
                    assert(q == entries_text(rest).len());
                    assert((entries_text(rest) + seq![125u8])[q] == 125);
                }
            }
        }
        assert forall|i: int, j: int| 0 <= i < j < rest.len() implies rest[i].id < rest[j].id by {
            assert(rest[i] == es[i + 1] && rest[j] == es[j + 1]);
        }
        assert(rest[0] == es[1]);
        lemma_entries_from_of_text(s, end + 1, rest, es[0].id + 1);
        assert(entries_from(s, pos, min_id) == Some(seq![es[0]] + rest));
        assert(seq![es[0]] + rest =~= es);
    }
}

/// Round trip: loading what was stored gives back the same index. Together
/// with `store_index` being a pure function of the entries, running the
/// maintenance step twice over an unchanged tile set writes the identical
/// index file, and a build run started from that file works with exactly
/// the index that maintenance derived.
pub proof fn lemma_store_load_round_trip(entries: Seq<IndexEntry>)
    requires
        strictly_increasing(entries),
    ensures
        parsed_index(index_text(entries)) == Some(entries),
{
    let s = index_text(entries);
    assert(s[0] == 123);
    if entries.len() == 0 {
        assert(entries_text(entries) == Seq::<u8>::empty());
        assert(s.len() == 2 && s[1] == 125);
        assert(parsed_index(s) == Some(Seq::<IndexEntry>::empty()));
        assert(Seq::<IndexEntry>::empty() =~= entries);
    } else {
        lemma_decimal_shape(entries[0].id as nat);
        assert(entries_text(entries).len() >= entry_text(entries[0]).len()) by {
            lemma_entries_text_len(entries);
        }
        assert(s.len() > 2);
        assert(s.subrange(1, s.len() as int) =~= entries_text(entries) + seq![125u8]);
        lemma_entries_from_of_text(s, 1, entries, 0);
    }
}

/// The stored text of a nonempty entry run is at least as long as its
/// first entry's text.
proof fn lemma_entries_text_len(es: Seq<IndexEntry>)
    requires
        es.len() >= 1,
    ensures
        entries_text(es).len() >= entry_text(es[0]).len(),
{
}

/// What a seven-byte color text denotes: the color, exactly when the bytes
/// are a canonical uppercase "#RRGGBB" text.
pub open spec fn parsed_color(s: Seq<u8>) -> Option<Color> {
    if s.len() == 7 && s[0] == 35 && is_upper_hex(s[1]) && is_upper_hex(s[2]) && is_upper_hex(
        s[3],
    ) && is_upper_hex(s[4]) && is_upper_hex(s[5]) && is_upper_hex(s[6]) {
        Some(
            Color {
                r: (hex_value(s[1]) * 16 + hex_value(s[2])) as u8,
                g: (hex_value(s[3]) * 16 + hex_value(s[4])) as u8,
                b: (hex_value(s[5]) * 16 + hex_value(s[6])) as u8,
            },
        )
    } else {
        None
    }
}

/// Writes a color as its canonical uppercase "#RRGGBB" text.
pub fn color_to_hex(c: Color) -> (out: Vec<u8>)
    ensures
        out@ == color_text(c),
{
    let mut out: Vec<u8> = Vec::new();
    push_color(&mut out, c);
    proof {
        assert(out@ =~= color_text(c));
    }
    out
}

/// Reads a canonical uppercase "#RRGGBB" text back into a color; any other
/// text is rejected.
pub fn hex_to_color(s: &[u8]) -> (r: Option<Color>)
    ensures
        r == parsed_color(s@),
{
    if s.len() != 7 || s[0] != 35 {
        return None;
    }
    let h = [s[1], s[2], s[3], s[4], s[5], s[6]];
    if !(is_upper_hex_exec(h[0]) && is_upper_hex_exec(h[1]) && is_upper_hex_exec(h[2])
        && is_upper_hex_exec(h[3]) && is_upper_hex_exec(h[4]) && is_upper_hex_exec(h[5])) {
        return None;
    }
    Some(
        Color {
            r: hex_digit_value(h[0]) * 16 + hex_digit_value(h[1]),
            g: hex_digit_value(h[2]) * 16 + hex_digit_value(h[3]),
            b: hex_digit_value(h[4]) * 16 + hex_digit_value(h[5]),
        },
    )
}

/// The color text round trip: reading back the canonical text of a color
/// gives exactly that color, with no drift in any channel.
pub proof fn lemma_color_text_round_trip(c: Color)
    ensures
        parsed_color(color_text(c)) == Some(c),
{
    let t = color_text(c);
    lemma_hex_byte_round_trip(c.r);
    lemma_hex_byte_round_trip(c.g);
    lemma_hex_byte_round_trip(c.b);
    assert(t[0] == 35 && t[1] == hex_digit(c.r as int / 16) && t[2] == hex_digit(c.r as int % 16)
        && t[3] == hex_digit(c.g as int / 16) && t[4] == hex_digit(c.g as int % 16) && t[5]
        == hex_digit(c.b as int / 16) && t[6] == hex_digit(c.b as int % 16));
}

} // verus!
