//! Decimal text codec for the vocabulary file and for the vectors-file
//! header: unsigned numbers written as ASCII digit runs, and the exact
//! parse that reads them back.

use vstd::prelude::*;

verus! {

/// The decimal digit bytes of `n`, most significant first, with no sign
/// and no leading zero (except for `n == 0` itself, written `"0"`).
pub open spec fn dec_bytes(n: nat) -> Seq<u8>
    decreases n,
{
    if n < 10 {
        seq![(48 + n) as u8]
    } else {
        dec_bytes(n / 10) + seq![(48 + n % 10) as u8]
    }
}

/// The numeric value of a digit run, most significant first.
/// Meaningful only when `all_digits` holds of the run.
pub open spec fn dec_value(s: Seq<u8>) -> int
    decreases s.len(),
{
    if s.len() == 0 {
        0
    } else {
        dec_value(s.drop_last()) * 10 + (s.last() - 48)
    }
}

pub open spec fn is_digit(b: u8) -> bool {
    48 <= b <= 57
}

pub open spec fn all_digits(s: Seq<u8>) -> bool {
    forall|i: int| 0 <= i < s.len() ==> is_digit(#[trigger] s[i])
}

/// `dec_bytes` writes only digits, at least one of them.
pub proof fn lemma_dec_bytes_digits(n: nat)
    ensures
        dec_bytes(n).len() >= 1,
        all_digits(dec_bytes(n)),
    decreases n,
{
    if n >= 10 {
        lemma_dec_bytes_digits(n / 10);
        assert forall|i: int| 0 <= i < dec_bytes(n).len() implies is_digit(
            #[trigger] dec_bytes(n)[i],
        ) by {
            if i < dec_bytes(n / 10).len() {
                assert(dec_bytes(n)[i] == dec_bytes(n / 10)[i]);
            }
        }
    }
}

/// Writing a number and reading the digits back gives the number again.
pub proof fn lemma_dec_round_trip(n: nat)
    ensures
        dec_value(dec_bytes(n)) == n,
    decreases n,
{
    reveal_with_fuel(dec_value, 2);
    if n < 10 {
        assert(dec_bytes(n).drop_last() =~= Seq::<u8>::empty());
        assert(dec_bytes(n).last() == (48 + n) as u8);
    } else {
        lemma_dec_round_trip(n / 10);
        assert(dec_bytes(n).drop_last() =~= dec_bytes(n / 10));
        assert(dec_bytes(n).last() == (48 + n % 10) as u8);
        assert(dec_value(dec_bytes(n)) == dec_value(dec_bytes(n / 10)) * 10 + n % 10);
        assert(n / 10 * 10 + n % 10 == n) by {
            vstd::arithmetic::div_mod::lemma_fundamental_div_mod(n as int, 10);
        }
    }
}

/// Appending one digit multiplies the value by ten and adds the digit.
proof fn lemma_dec_value_push(s: Seq<u8>, b: u8)
    ensures
        dec_value(s.push(b)) == dec_value(s) * 10 + (b - 48),
{
    assert(s.push(b).drop_last() =~= s);
}

proof fn lemma_dec_value_nonneg(s: Seq<u8>)
    requires
        all_digits(s),
    ensures
        dec_value(s) >= 0,
    decreases s.len(),
{
    if s.len() > 0 {
        assert(all_digits(s.drop_last())) by {
            assert(forall|j: int| 0 <= j < s.len() - 1 ==> s.drop_last()[j] == #[trigger] s[j]);
        }
        lemma_dec_value_nonneg(s.drop_last());
    }
}

/// A digit run's value never falls below the value of any of its prefixes.
proof fn lemma_dec_value_prefix_le(s: Seq<u8>, i: int)
    requires
        0 <= i <= s.len(),
        all_digits(s),
    ensures
        dec_value(s.subrange(0, i)) <= dec_value(s),
    decreases s.len() - i,
{
    if i == s.len() {
        assert(s.subrange(0, i) =~= s);
    } else {
        lemma_dec_value_prefix_le(s, i + 1);
        let p = s.subrange(0, i + 1);
        assert(p.drop_last() =~= s.subrange(0, i));
        lemma_dec_value_nonneg(s.subrange(0, i));
        assert(dec_value(p) == dec_value(s.subrange(0, i)) * 10 + (p.last() - 48));
        assert(is_digit(s[i]));
        assert(p.last() == s[i]);
        assert(dec_value(s.subrange(0, i)) * 10 >= dec_value(s.subrange(0, i))) by (nonlinear_arith)
            requires
                dec_value(s.subrange(0, i)) >= 0,
        ;
    }
}

/// One vocabulary file line: the word's bytes, a space, the count in
/// decimal, a newline.
pub open spec fn line_bytes(e: (Seq<u8>, u32)) -> Seq<u8> {
    e.0 + seq![32u8] + dec_bytes(e.1 as nat) + seq![10u8]
}

/// The vocabulary file: one line per entry, in entry order.
pub open spec fn vocab_file_bytes(es: Seq<(Seq<u8>, u32)>) -> Seq<u8>
    decreases es.len(),
{
    if es.len() == 0 {
        Seq::empty()
    } else {
        line_bytes(es[0]) + vocab_file_bytes(es.drop_first())
    }
}

/// Appending an entry appends its line.
pub proof fn lemma_vocab_file_push(es: Seq<(Seq<u8>, u32)>, e: (Seq<u8>, u32))
    ensures
        vocab_file_bytes(es.push(e)) == vocab_file_bytes(es) + line_bytes(e),
    decreases es.len(),
{
    reveal_with_fuel(vocab_file_bytes, 3);
    if es.len() == 0 {
        assert(es.push(e)[0] == e);
        assert(es.push(e).drop_first() =~= Seq::<(Seq<u8>, u32)>::empty());
        assert(vocab_file_bytes(es.push(e)) =~= vocab_file_bytes(es) + line_bytes(e));
    } else {
        lemma_vocab_file_push(es.drop_first(), e);
        assert(es.push(e).drop_first() =~= es.drop_first().push(e));
        assert(es.push(e)[0] == es[0]);
        assert(line_bytes(es[0]) + (vocab_file_bytes(es.drop_first()) + line_bytes(e))
            =~= (line_bytes(es[0]) + vocab_file_bytes(es.drop_first())) + line_bytes(e));
    }
}

/// The first position at or after `from` holding byte `b`, or `-1`.
pub open spec fn find_byte(data: Seq<u8>, b: u8, from: int) -> int
    decreases data.len() - from,
{
    if from < 0 || from >= data.len() {
        -1
    } else if data[from] == b {
        from
    } else {
        find_byte(data, b, from + 1)
    }
}

pub proof fn lemma_find_byte_bounds(data: Seq<u8>, b: u8, from: int)
    requires
        0 <= from,
    ensures
        find_byte(data, b, from) == -1 || (from <= find_byte(data, b, from) < data.len()
            && data[find_byte(data, b, from)] == b),
        find_byte(data, b, from) >= 0 ==> forall|i: int|
            from <= i < find_byte(data, b, from) ==> data[i] != b,
        find_byte(data, b, from) == -1 ==> forall|i: int| from <= i < data.len() ==> data[i] != b,
    decreases data.len() - from,
{
    if from < data.len() && data[from] != b {
        lemma_find_byte_bounds(data, b, from + 1);
    }
}

/// Where the occurrence is known, `find_byte` returns it.
proof fn lemma_find_byte_exact(data: Seq<u8>, b: u8, from: int, p: int)
    requires
        0 <= from <= p < data.len(),
        data[p] == b,
        forall|i: int| from <= i < p ==> data[i] != b,
    ensures
        find_byte(data, b, from) == p,
    decreases p - from,
{
    if from < p {
        lemma_find_byte_exact(data, b, from + 1, p);
    }
}

/// Parses the vocabulary file from byte `pos` on: the entries of its
/// remaining lines, or `None` where a line is malformed (no newline, no
/// space, an empty word, a bad or zero count).
pub open spec fn parse_vocab_from(data: Seq<u8>, pos: int) -> Option<Seq<(Seq<u8>, u32)>>
    recommends
        0 <= pos,
    decreases data.len() - pos,
    when 0 <= pos
    via parse_vocab_from_decreases
{
    if pos >= data.len() {
        Some(Seq::empty())
    } else {
        let nl = find_byte(data, 10, pos);
        if nl < 0 {
            None
        } else {
            let sp = find_byte(data, 32, pos);
            if !(pos < sp && sp < nl) {
                None
            } else {
                let w = data.subrange(pos, sp);
                let digits = data.subrange(sp + 1, nl);
                if digits.len() == 0 || !all_digits(digits) {
                    None
                } else {
                    let v = dec_value(digits);
                    if v < 1 || v > u32::MAX {
                        None
                    } else {
                        match parse_vocab_from(data, nl + 1) {
                            None => None,
                            Some(rest) => Some(seq![(w, v as u32)] + rest),
                        }
                    }
                }
            }
        }
    }
}

#[via_fn]
proof fn parse_vocab_from_decreases(data: Seq<u8>, pos: int) {
    if 0 <= pos < data.len() {
        lemma_find_byte_bounds(data, 10, pos);
    }
}

/// Parses a whole vocabulary file.
pub open spec fn parse_vocab_bytes(data: Seq<u8>) -> Option<Seq<(Seq<u8>, u32)>> {
    parse_vocab_from(data, 0)
}

/// Saving a vocabulary and parsing the file back yields the entries
/// unchanged, for every well-formed entry sequence: words nonempty and
/// free of space and newline, counts at least 1.
pub proof fn lemma_vocab_file_round_trip(es: Seq<(Seq<u8>, u32)>)
    requires
        forall|i: int|
            0 <= i < es.len() ==> {
                &&& (#[trigger] es[i]).0.len() >= 1
                &&& es[i].1 >= 1
                &&& forall|k: int|
                    0 <= k < es[i].0.len() ==> (#[trigger] es[i].0[k]) != 32 && es[i].0[k] != 10
            },
    ensures
        parse_vocab_bytes(vocab_file_bytes(es)) == Some(es),
{
    let data = vocab_file_bytes(es);
    assert(data.subrange(0, data.len() as int) =~= data);
    lemma_vocab_round_trip_from(data, 0, es);
}

proof fn lemma_vocab_round_trip_from(data: Seq<u8>, pos: int, es: Seq<(Seq<u8>, u32)>)
    requires
        0 <= pos <= data.len(),
        data.subrange(pos, data.len() as int) == vocab_file_bytes(es),
        forall|i: int|
            0 <= i < es.len() ==> {
                &&& (#[trigger] es[i]).0.len() >= 1
                &&& es[i].1 >= 1
                &&& forall|k: int|
                    0 <= k < es[i].0.len() ==> (#[trigger] es[i].0[k]) != 32 && es[i].0[k] != 10
            },
    ensures
        parse_vocab_from(data, pos) == Some(es),
    decreases es.len(),
{
    let tail = data.subrange(pos, data.len() as int);
    if es.len() == 0 {
        assert(tail.len() == 0);
    } else {
        let e = es[0];
        let w = e.0;
        let digits = dec_bytes(e.1 as nat);
        lemma_dec_bytes_digits(e.1 as nat);
        lemma_dec_round_trip(e.1 as nat);
        let wl = w.len() as int;
        let dl = digits.len() as int;
        let line_len = wl + 1 + dl + 1;
        // Lay the first line out over the data.
        assert(tail == line_bytes(e) + vocab_file_bytes(es.drop_first()));
        assert(line_bytes(e).len() == line_len);
        assert(pos + line_len <= data.len());
        assert(forall|i: int|
            0 <= i < tail.len() ==> #[trigger] data[pos + i] == tail[i]);
        assert forall|i: int| 0 <= i < wl implies #[trigger] data[pos + i] == w[i] by {
            assert(data[pos + i] == tail[i]);
            assert(tail[i] == line_bytes(e)[i]);
        }
        assert(data[pos + wl] == 32) by {
            assert(data[pos + wl] == tail[wl]);
            assert(tail[wl] == line_bytes(e)[wl]);
        }
        assert forall|i: int| 0 <= i < dl implies #[trigger] data[pos + wl + 1 + i]
            == digits[i] by {
            assert(data[pos + (wl + 1 + i)] == tail[wl + 1 + i]);
            assert(tail[wl + 1 + i] == line_bytes(e)[wl + 1 + i]);
            assert(line_bytes(e)[wl + 1 + i] == digits[i]);
        }
        assert(data[pos + wl + 1 + dl] == 10) by {
            assert(data[pos + (wl + 1 + dl)] == tail[wl + 1 + dl]);
            assert(tail[wl + 1 + dl] == line_bytes(e)[wl + 1 + dl]);
            assert(line_bytes(e)[wl + 1 + dl] == 10);
        }
        // The first newline and the first space are the line's own.
        assert forall|i: int| pos <= i < pos + wl + 1 + dl implies data[i] != 10 by {
            if i < pos + wl {
                assert(data[pos + (i - pos)] == w[i - pos]);
                assert(data[i] == w[i - pos]);
            } else if i == pos + wl {
                assert(data[pos + wl] == 32);
            } else {
                assert(data[pos + wl + 1 + (i - pos - wl - 1)] == digits[i - pos - wl - 1]);
                assert(data[i] == digits[i - pos - wl - 1]);
                assert(is_digit(digits[i - pos - wl - 1]));
            }
        }
        lemma_find_byte_exact(data, 10, pos, pos + wl + 1 + dl);
        assert forall|i: int| pos <= i < pos + wl implies data[i] != 32 by {
            assert(data[pos + (i - pos)] == w[i - pos]);
            assert(data[i] == w[i - pos]);
        }
        lemma_find_byte_exact(data, 32, pos, pos + wl);
        let nl = pos + wl + 1 + dl;
        let sp = pos + wl;
        assert(find_byte(data, 10, pos) == nl);
        assert(find_byte(data, 32, pos) == sp);
        assert(data.subrange(pos, sp) =~= w);
        assert forall|i: int| 0 <= i < dl implies data.subrange(sp + 1, nl)[i] == digits[i] by {
            assert(data[pos + wl + 1 + i] == digits[i]);
            assert(data.subrange(sp + 1, nl)[i] == data[sp + 1 + i]);
            assert(sp + 1 + i == pos + wl + 1 + i);
        }
        assert(data.subrange(sp + 1, nl) =~= digits);
        assert(dec_value(digits) == e.1);
        // The rest of the data is the rest of the file.
        let rest = vocab_file_bytes(es.drop_first());
        assert forall|i: int| 0 <= i < rest.len() implies data.subrange(
            nl + 1,
            data.len() as int,
        )[i] == rest[i] by {
            assert(data[pos + (line_len + i)] == tail[line_len + i]);
            assert(tail[line_len + i] == rest[i]);
            assert(data.subrange(nl + 1, data.len() as int)[i] == data[nl + 1 + i]);
            assert(nl + 1 + i == pos + (line_len + i));
        }
        assert(data.subrange(nl + 1, data.len() as int) =~= vocab_file_bytes(es.drop_first()));
        assert forall|i: int| 0 <= i < es.drop_first().len() implies {
            &&& (#[trigger] es.drop_first()[i]).0.len() >= 1
            &&& es.drop_first()[i].1 >= 1
            &&& forall|k: int|
                0 <= k < es.drop_first()[i].0.len() ==> (#[trigger] es.drop_first()[i].0[k]) != 32
                    && es.drop_first()[i].0[k] != 10
        } by {
            assert(es.drop_first()[i] == es[i + 1]);
        }
        lemma_vocab_round_trip_from(data, nl + 1, es.drop_first());
        assert(seq![(w, e.1)] + es.drop_first() =~= es);
    }
}

/// The vectors file's header line: `"<vocab_size> <embedding_dim>"`.
pub open spec fn header_bytes(rows: nat, dim: nat) -> Seq<u8> {
    dec_bytes(rows) + seq![32u8] + dec_bytes(dim) + seq![10u8]
}

/// What a vectors-file header line holds: the two numbers, or `None`
/// where the line is not `"<digits> <digits>\n"` with both fitting `u32`.
pub open spec fn parse_header(data: Seq<u8>) -> Option<(u32, u32)> {
    let sp = find_byte(data, 32, 0);
    let nl = find_byte(data, 10, 0);
    if !(0 < sp && sp < nl) {
        None
    } else {
        let rows = data.subrange(0, sp);
        let dim = data.subrange(sp + 1, nl);
        if !all_digits(rows) || dim.len() == 0 || !all_digits(dim) || dec_value(rows) > u32::MAX
            || dec_value(dim) > u32::MAX {
            None
        } else {
            Some((dec_value(rows) as u32, dec_value(dim) as u32))
        }
    }
}

/// Writes the header line for a matrix of `rows` rows and `dim` columns.
pub fn format_header(rows: u32, dim: u32) -> (r: Vec<u8>)
    ensures
        r@ == header_bytes(rows as nat, dim as nat),
{
    let mut out: Vec<u8> = Vec::new();
    push_dec_u64(rows as u64, &mut out);
    out.push(32);
    push_dec_u64(dim as u64, &mut out);
    out.push(10);
    proof {
        assert(out@ =~= header_bytes(rows as nat, dim as nat));
    }
    out
}

/// The first position at or after `from` holding `b`.
pub fn find_byte_exec(data: &[u8], b: u8, from: usize) -> (r: Option<usize>)
    requires
        from <= data@.len(),
    ensures
        match r {
            Some(p) => from <= p < data@.len() && p == find_byte(data@, b, from as int),
            None => find_byte(data@, b, from as int) == -1,
        },
{
    let mut i = from;
    while i < data.len()
        invariant
            from <= i <= data@.len(),
            find_byte(data@, b, from as int) == find_byte(data@, b, i as int),
        decreases data@.len() - i,
    {
        if data[i] == b {
            return Some(i);
        }
        i = i + 1;
    }
    None
}

/// Reads a vectors-file header line back into its two numbers.
pub fn read_header(data: &[u8]) -> (r: Option<(u32, u32)>)
    ensures
        r == parse_header(data@),
{
    let sp = match find_byte_exec(data, 32, 0) {
        Some(sp) => sp,
        None => {
            return None;
        },
    };
    let nl = match find_byte_exec(data, 10, 0) {
        Some(nl) => nl,
        None => {
            return None;
        },
    };
    if !(0 < sp && sp < nl) {
        return None;
    }
    let rows = match parse_u32(data, 0, sp) {
        Some(v) => v,
        None => {
            return None;
        },
    };
    let dim = match parse_u32(data, sp + 1, nl) {
        Some(v) => v,
        None => {
            return None;
        },
    };
    Some((rows, dim))
}

/// A written header parses back to the numbers it was written from.
pub proof fn lemma_header_round_trip(rows: u32, dim: u32)
    ensures
        parse_header(header_bytes(rows as nat, dim as nat)) == Some((rows, dim)),
{
    let data = header_bytes(rows as nat, dim as nat);
    let rb = dec_bytes(rows as nat);
    let db = dec_bytes(dim as nat);
    lemma_dec_bytes_digits(rows as nat);
    lemma_dec_bytes_digits(dim as nat);
    lemma_dec_round_trip(rows as nat);
    lemma_dec_round_trip(dim as nat);
    let rl = rb.len() as int;
    let dl = db.len() as int;
    assert(forall|i: int| 0 <= i < rl ==> #[trigger] data[i] == rb[i]);
    assert(data[rl] == 32);
    assert forall|i: int| 0 <= i < dl implies #[trigger] data[rl + 1 + i] == db[i] by {
        assert(data[rl + 1 + i] == db[i]);
    }
    assert(data[rl + 1 + dl] == 10);
    assert forall|i: int| 0 <= i < rl + 1 + dl implies data[i] != 10 by {
        if i < rl {
            assert(data[i] == rb[i]);
            assert(is_digit(rb[i]));
        } else if i > rl {
            assert(data[rl + 1 + (i - rl - 1)] == db[i - rl - 1]);
            assert(is_digit(db[i - rl - 1]));
        }
    }
    lemma_find_byte_exact(data, 10, 0, rl + 1 + dl);
    assert forall|i: int| 0 <= i < rl implies data[i] != 32 by {
        assert(data[i] == rb[i]);
        assert(is_digit(rb[i]));
    }
    lemma_find_byte_exact(data, 32, 0, rl);
    assert(data.subrange(0, rl) =~= rb);
    assert forall|i: int| 0 <= i < dl implies data.subrange(rl + 1, rl + 1 + dl)[i] == db[i] by {
        assert(data.subrange(rl + 1, rl + 1 + dl)[i] == data[rl + 1 + i]);
        assert(data[rl + 1 + i] == db[i]);
    }
    assert(data.subrange(rl + 1, rl + 1 + dl) =~= db);
}

/// Appends the decimal digits of `n` to `out`.
pub fn push_dec_u64(n: u64, out: &mut Vec<u8>)
    ensures
        final(out)@ == old(out)@ + dec_bytes(n as nat),
    decreases n,
{
    if n < 10 {
        out.push(48 + n as u8);
        assert(out@ =~= old(out)@ + dec_bytes(n as nat));
    } else {
        push_dec_u64(n / 10, out);
        out.push(48 + (n % 10) as u8);
        assert(out@ =~= old(out)@ + dec_bytes(n as nat));
    }
}

pub fn exec_is_digit(b: u8) -> (r: bool)
    ensures
        r == is_digit(b),
{
    48 <= b && b <= 57
}

/// Parses `s[start..end]` as an unsigned decimal number.
/// Returns `Some` exactly when the range is nonempty, holds only digits,
/// and the value fits in a `u32`; the result is then that value.
pub fn parse_u32(s: &[u8], start: usize, end: usize) -> (r: Option<u32>)
    requires
        start <= end <= s@.len(),
    ensures
        ({
            let digits = s@.subrange(start as int, end as int);
            match r {
                Some(v) => start < end && all_digits(digits) && dec_value(digits) == v,
                None => start == end || !all_digits(digits) || dec_value(digits) > u32::MAX,
            }
        }),
{
    let ghost digits = s@.subrange(start as int, end as int);
    if start == end {
        return None;
    }
    let mut acc: u32 = 0;
    let mut i: usize = start;
    while i < end
        invariant
            start <= i <= end <= s@.len(),
            digits == s@.subrange(start as int, end as int),
            all_digits(s@.subrange(start as int, i as int)),
            acc == dec_value(s@.subrange(start as int, i as int)),
        decreases end - i,
    {
        let b = s[i];
        if !exec_is_digit(b) {
            proof {
                assert(digits[i - start] == b);
            }
            return None;
        }
        let d: u32 = (b - 48) as u32;
        proof {
            lemma_dec_value_push(s@.subrange(start as int, i as int), b);
            assert(s@.subrange(start as int, i as int).push(b) =~= s@.subrange(
                start as int,
                (i + 1) as int,
            ));
        }
        if acc > (u32::MAX - d) / 10 {
            // Any further digits only grow the value, so it cannot fit.
            proof {
                assert(acc * 10 + d > u32::MAX) by (nonlinear_arith)
                    requires
                        acc > (u32::MAX - d) / 10,
                        0 <= d <= 9,
                ;
                if all_digits(digits) {
                    assert(digits.subrange(0, i + 1 - start) =~= s@.subrange(
                        start as int,
                        (i + 1) as int,
                    ));
                    lemma_dec_value_prefix_le(digits, i + 1 - start);
                }
            }
            return None;
        }
        assert(acc * 10 + d <= u32::MAX) by (nonlinear_arith)
            requires
                acc <= (u32::MAX - d) / 10,
                0 <= d <= 9,
        ;
        acc = acc * 10 + d;
        i = i + 1;
    }
    assert(s@.subrange(start as int, i as int) =~= digits);
    Some(acc)
}

} // verus!
