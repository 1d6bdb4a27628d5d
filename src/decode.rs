use vstd::prelude::*;

use crate::lines::{crlf, lemma_lines_terminated, lines, spec_lines};
use crate::ranges::HashPrefix;

verus! {

#[verifier::external_type_specification]
#[verifier::external_body]
pub struct ExFromHexError(hex::FromHexError);

/// Why a line of a body could not be decoded into a record.
#[derive(Clone, Copy, Debug, PartialEq, Eq, Structural)]
pub enum DecodeError {
    /// The line is shorter than a suffix and its separator, or the separator
    /// is not a colon.
    MalformedLine,
    /// A byte of the shard key or of the suffix is not a hexadecimal digit.
    InvalidHash,
    /// The count is empty, holds a non-digit, or does not fit in 64 bits.
    InvalidCount,
}

/// Number of hexadecimal characters in a line's suffix.
pub const SUFFIX_LEN: usize = 35;

pub open spec fn is_hex_digit(c: u8) -> bool {
    (48 <= c && c <= 57) || (65 <= c && c <= 70) || (97 <= c && c <= 102)
}

pub open spec fn hex_value(c: u8) -> nat {
    if 48 <= c && c <= 57 {
        (c - 48) as nat
    } else if 65 <= c && c <= 70 {
        (c - 55) as nat
    } else {
        (c - 87) as nat
    }
}

pub open spec fn all_hex(s: Seq<u8>) -> bool {
    forall|i: int| 0 <= i < s.len() ==> is_hex_digit(#[trigger] s[i])
}

/// The bytes that the hexadecimal digits `s` spell, two digits a byte.
pub open spec fn spec_hex_decode(s: Seq<u8>) -> Seq<u8> {
    Seq::new(s.len() / 2, |i: int| (hex_value(s[2 * i]) * 16 + hex_value(s[2 * i + 1])) as u8)
}

/// Relies on hex::decode_to_slice: forty digits fill twenty bytes, each the
/// value of two digits of either case, and any other byte is an error.
#[verifier::external_body]
fn decode_hex_to(digits: &[u8], out: &mut [u8; 20]) -> (r: Result<(), hex::FromHexError>)
    requires
        digits@.len() == 40,
    ensures
        r.is_ok() <==> all_hex(digits@),
        r.is_ok() ==> final(out)@ == spec_hex_decode(digits@),
{
    hex::decode_to_slice(digits, out)
}

pub open spec fn is_digit(c: u8) -> bool {
    48 <= c && c <= 57
}

pub open spec fn all_digits(s: Seq<u8>) -> bool {
    forall|i: int| 0 <= i < s.len() ==> is_digit(#[trigger] s[i])
}

/// The number that the decimal digits `s` spell.
pub open spec fn decimal_value(s: Seq<u8>) -> nat
    decreases s.len(),
{
    if s.len() == 0 {
        0
    } else {
        decimal_value(s.drop_last()) * 10 + (s.last() - 48) as nat
    }
}

/// The count field of a record line: what follows the separator, without a
/// final carriage return and line feed.
pub open spec fn count_field(line: Seq<u8>) -> Seq<u8> {
    let f = line.subrange(36, line.len() as int);
    if f.len() >= 2 && f[f.len() - 2] == 13u8 && f[f.len() - 1] == 10u8 {
        f.subrange(0, f.len() - 2)
    } else {
        f
    }
}

/// The forty hexadecimal digits of a record's hash: the shard key, then the
/// line's suffix.
pub open spec fn hash_digits(prefix: Seq<u8>, line: Seq<u8>) -> Seq<u8> {
    prefix + line.subrange(0, 35)
}

/// The record that a line of the body of shard `prefix` stands for: its hash
/// and its count, or why it has none.
pub open spec fn spec_decode_line(prefix: Seq<u8>, line: Seq<u8>) -> Result<
    (Seq<u8>, nat),
    DecodeError,
> {
    if line.len() < 36 || line[35] != 58u8 {
        Err(DecodeError::MalformedLine)
    } else if !all_hex(hash_digits(prefix, line)) {
        Err(DecodeError::InvalidHash)
    } else {
        let c = count_field(line);
        if c.len() == 0 || !all_digits(c) || decimal_value(c) > u64::MAX {
            Err(DecodeError::InvalidCount)
        } else {
            Ok((spec_hex_decode(hash_digits(prefix, line)), decimal_value(c)))
        }
    }
}

/// The records of the lines `ls`, or the error of the first line without one.
pub open spec fn spec_records(prefix: Seq<u8>, ls: Seq<Seq<u8>>) -> Result<
    Seq<(Seq<u8>, nat)>,
    DecodeError,
>
    decreases ls.len(),
{
    if ls.len() == 0 {
        Ok(Seq::empty())
    } else {
        match spec_records(prefix, ls.drop_last()) {
            Err(e) => Err(e),
            Ok(rs) => match spec_decode_line(prefix, ls.last()) {
                Err(e) => Err(e),
                Ok(r) => Ok(rs.push(r)),
            },
        }
    }
}

pub proof fn lemma_decimal_prefix_monotone(s: Seq<u8>, j: nat, k: nat)
    requires
        j <= k <= s.len(),
        all_digits(s),
    ensures
        decimal_value(s.subrange(0, j as int)) <= decimal_value(s.subrange(0, k as int)),
    decreases k - j,
{
    if j < k {
        lemma_decimal_prefix_monotone(s, j, (k - 1) as nat);
        assert(s.subrange(0, k as int).drop_last() =~= s.subrange(0, k - 1));
    }
}

/// Reads the decimal digits `s[from..to]` as a 64-bit count.
pub fn parse_decimal(s: &[u8], from: usize, to: usize) -> (r: Option<u64>)
    requires
        from <= to <= s@.len(),
    ensures
        ({
            let d = s@.subrange(from as int, to as int);
            r == if d.len() > 0 && all_digits(d) && decimal_value(d) <= u64::MAX {
                Some(decimal_value(d) as u64)
            } else {
                None::<u64>
            }
        }),
{
    let ghost d = s@.subrange(from as int, to as int);
    if from == to {
        return None;
    }
    let mut acc: u64 = 0;
    let mut i: usize = from;
    while i < to
        invariant
            from <= i <= to <= s@.len(),
            d == s@.subrange(from as int, to as int),
            all_digits(d.subrange(0, i - from)),
            acc == decimal_value(d.subrange(0, i - from)),
        decreases to - i,
    {
        let c = s[i];
        if c < 48u8 || c > 57u8 {
            assert(!is_digit(d[i - from]));
            return None;
        }
        let ghost next = d.subrange(0, i + 1 - from);
        assert(next.drop_last() =~= d.subrange(0, i - from));
        if acc > (u64::MAX - (c - 48u8) as u64) / 10 {
            proof {
                assert(decimal_value(next) > u64::MAX);
                if all_digits(d) {
                    lemma_decimal_prefix_monotone(d, (i + 1 - from) as nat, d.len());
                    assert(d.subrange(0, d.len() as int) =~= d);
                }
            }
            return None;
        }
        acc = acc * 10 + (c - 48u8) as u64;
        i = i + 1;
        assert(all_digits(next));
    }
    assert(d.subrange(0, to - from) =~= d);
    Some(acc)
}

/// Decodes one line of the body of shard `prefix` into a 20-byte hash and a
/// count.
pub fn decode_line(prefix: &HashPrefix, line: &[u8]) -> (r: Result<([u8; 20], u64), DecodeError>)
    ensures
        match spec_decode_line(prefix@, line@) {
            Ok((h, c)) => r.is_ok() && r.unwrap().0@ == h && r.unwrap().1 == c,
            Err(e) => r == Err::<([u8; 20], u64), DecodeError>(e),
        },
{
    let n = line.len();
    if n < 36 || line[35] != 58u8 {
        return Err(DecodeError::MalformedLine);
    }
    let mut digits: Vec<u8> = Vec::new();
    let mut i: usize = 0;
    while i < 5
        invariant
            i <= 5,
            digits@ == prefix@.subrange(0, i as int),
        decreases 5 - i,
    {
        digits.push(prefix[i]);
        i = i + 1;
        assert(digits@ =~= prefix@.subrange(0, i as int));
    }
    i = 0;
    while i < SUFFIX_LEN
        invariant
            i <= SUFFIX_LEN,
            n == line@.len(),
            n >= 36,
            digits@ == prefix@ + line@.subrange(0, i as int),
        decreases SUFFIX_LEN - i,
    {
        digits.push(line[i]);
        i = i + 1;
        assert(digits@ =~= prefix@ + line@.subrange(0, i as int));
    }
    let mut hash: [u8; 20] = [0u8; 20];
    match decode_hex_to(digits.as_slice(), &mut hash) {
        Ok(()) => {},
        Err(_) => {
            return Err(DecodeError::InvalidHash);
        },
    }
    let mut end: usize = n;
    if n >= 38 && line[n - 2] == 13u8 && line[n - 1] == 10u8 {
        end = n - 2;
    }
    proof {
        let f = line@.subrange(36, n as int);
        assert(count_field(line@) =~= line@.subrange(36, end as int));
    }
    match parse_decimal(line, 36, end) {
        Some(c) => Ok((hash, c)),
        None => Err(DecodeError::InvalidCount),
    }
}

/// Decodes every line of the body of shard `prefix` into (hash, count)
/// pairs, in the order of the lines; fails with the error of the first line
/// that does not decode.
pub fn hash_and_prevalance(prefix: &HashPrefix, piece: &[u8]) -> (r: Result<
    Vec<([u8; 20], u64)>,
    DecodeError,
>)
    ensures
        r is Ok <==> spec_records(prefix@, spec_lines(piece@)) is Ok,
        r is Err ==> spec_records(prefix@, spec_lines(piece@)) == Err::<
            Seq<(Seq<u8>, nat)>,
            DecodeError,
        >(r->Err_0),
        r is Ok ==> ({
            let rs = spec_records(prefix@, spec_lines(piece@))->Ok_0;
            &&& r->Ok_0@.len() == rs.len()
            &&& forall|i: int|
                0 <= i < rs.len() ==> (#[trigger] r->Ok_0@[i]).0@ == rs[i].0 && r->Ok_0@[i].1
                    == rs[i].1
        }),
{
    let ls = lines(piece);
    let ghost sl = spec_lines(piece@);
    let mut out: Vec<([u8; 20], u64)> = Vec::new();
    let mut k: usize = 0;
    while k < ls.len()
        invariant
            sl == spec_lines(piece@),
            k <= ls@.len() == sl.len(),
            forall|i: int| 0 <= i < ls@.len() ==> (#[trigger] ls@[i])@ == sl[i],
            spec_records(prefix@, sl.subrange(0, k as int)) is Ok,
            ({
                let rs = spec_records(prefix@, sl.subrange(0, k as int))->Ok_0;
                out@.len() == rs.len() && forall|i: int|
                    0 <= i < rs.len() ==> (#[trigger] out@[i]).0@ == rs[i].0 && out@[i].1
                        == rs[i].1
            }),
        decreases ls@.len() - k,
    {
        assert(sl.subrange(0, k + 1).drop_last() =~= sl.subrange(0, k as int));
        let rec = decode_line(prefix, ls[k].as_slice());
        match rec {
            Ok(x) => {
                out.push(x);
            },
            Err(e) => {
                proof {
                    assert(sl.subrange(0, k + 1).last() == ls@[k as int]@);
                    assert(spec_records(prefix@, sl.subrange(0, k + 1)) == Err::<
                        Seq<(Seq<u8>, nat)>,
                        DecodeError,
                    >(e));
                    lemma_records_error_persists(prefix@, sl, (k + 1) as nat);
                    assert(spec_records(prefix@, sl) == Err::<Seq<(Seq<u8>, nat)>, DecodeError>(
                        e,
                    ));
                }
                return Err(e);
            },
        }
        k = k + 1;
    }
    assert(sl.subrange(0, k as int) =~= sl);
    Ok(out)
}

/// Once a prefix of the lines fails to decode, every longer prefix fails with
/// the same error.
pub proof fn lemma_records_error_persists(prefix: Seq<u8>, ls: Seq<Seq<u8>>, k: nat)
    requires
        k <= ls.len(),
        spec_records(prefix, ls.subrange(0, k as int)) is Err,
    ensures
        spec_records(prefix, ls) == spec_records(prefix, ls.subrange(0, k as int)),
    decreases ls.len() - k,
{
    if k < ls.len() {
        assert(ls.subrange(0, (k + 1) as int).drop_last() =~= ls.subrange(0, k as int));
        lemma_records_error_persists(prefix, ls, k + 1);
    } else {
        assert(ls.subrange(0, k as int) =~= ls);
    }
}

proof fn lemma_decode_line_terminated(prefix: Seq<u8>, l: Seq<u8>)
    requires
        l.len() > 0,
        l.last() != 10u8,
    ensures
        spec_decode_line(prefix, l + crlf()) == spec_decode_line(prefix, l),
{
    let l2 = l + crlf();
    if l.len() == 34 {
        assert(l2[35] == 10u8);
    } else if l.len() == 35 {
        assert(l2[35] == 13u8);
    } else if l.len() >= 36 {
        assert(l2[35] == l[35]);
        assert(l2.subrange(0, 35) =~= l.subrange(0, 35));
        assert(hash_digits(prefix, l2) == hash_digits(prefix, l));
        let f = l.subrange(36, l.len() as int);
        let f2 = l2.subrange(36, l2.len() as int);
        assert(f2 =~= f + crlf());
        assert(f2.subrange(0, f2.len() - 2) =~= f);
        if f.len() >= 2 {
            assert(f[f.len() - 1] == l.last());
        }
        assert(count_field(l2) == count_field(l));
    }
}

/// A body decodes to the same records, or fails with the same error, with
/// and without a final carriage return and line feed.
pub proof fn lemma_records_terminated(prefix: Seq<u8>, b: Seq<u8>)
    requires
        b.len() > 0,
        b.last() != 10u8,
    ensures
        spec_records(prefix, spec_lines(b + crlf())) == spec_records(prefix, spec_lines(b)),
{
    lemma_lines_terminated(b);
    let ls = spec_lines(b);
    let ls2 = spec_lines(b + crlf());
    assert(ls2.drop_last() =~= ls.drop_last());
    assert(ls2.last() == ls.last() + crlf());
    lemma_decode_line_terminated(prefix, ls.last());
}

} // verus!
