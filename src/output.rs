use vstd::prelude::*;

use crate::decode::{
    all_digits, all_hex, count_field, decimal_value, hash_and_prevalance, hash_digits,
    lemma_records_terminated, spec_decode_line, spec_records, DecodeError,
};
use crate::lines::{append, crlf, is_break, lemma_single_line, lines, spec_lines};
use crate::ranges::{lemma_ranges_distinct, spec_range_at, spec_total_len, HashPrefix};

verus! {

/// How records are written to a file.
#[derive(Clone, Copy, Debug, PartialEq, Eq, Structural)]
pub enum Format {
    Text,
    Binary,
}

impl Format {
    /// The name of the format on the command line.
    pub fn name(&self) -> (r: &'static str)
        ensures
            r@ == (match self {
                Format::Text => "text"@,
                Format::Binary => "binary"@,
            }),
    {
        match self {
            Format::Text => "text",
            Format::Binary => "binary",
        }
    }
}

/// Where the dataset goes: standard output, or a file at a path.
#[derive(Clone, Debug)]
pub enum OutputMode {
    Stdout,
    SingleFile(String),
}

/// The sink that a run writes through.
#[derive(Clone, Copy, Debug, PartialEq, Eq, Structural)]
pub enum SinkKind {
    /// Text lines to standard output.
    Stdout,
    /// Text lines to a file.
    TextFile,
    /// Fixed 28-byte records to a file.
    BinaryFile,
}

impl OutputMode {
    pub fn is_not_stdout(&self) -> (r: bool)
        ensures
            r == !(self is Stdout),
    {
        match self {
            OutputMode::Stdout => false,
            OutputMode::SingleFile(_) => true,
        }
    }

    /// Reads a destination: `-` is standard output, anything else a path.
    pub fn parse(v: &str) -> (r: OutputMode)
        ensures
            v@ == "-"@ ==> r is Stdout,
            v@ != "-"@ ==> r is SingleFile && r->SingleFile_0@ == v@,
    {
        proof {
            reveal_strlit("-");
        }
        if v.unicode_len() == 1 && v.get_char(0) == '-' {
            assert(v@ =~= "-"@);
            OutputMode::Stdout
        } else {
            OutputMode::SingleFile(v.to_string())
        }
    }

    /// The sink for this destination and format: standard output always
    /// takes text, a file takes the format asked for.
    pub fn sink_kind(&self, format: Format) -> (r: SinkKind)
        ensures
            r == (match (self, format) {
                (OutputMode::Stdout, _) => SinkKind::Stdout,
                (OutputMode::SingleFile(_), Format::Text) => SinkKind::TextFile,
                (OutputMode::SingleFile(_), Format::Binary) => SinkKind::BinaryFile,
            }),
    {
        match self {
            OutputMode::Stdout => SinkKind::Stdout,
            OutputMode::SingleFile(_) => match format {
                Format::Text => SinkKind::TextFile,
                Format::Binary => SinkKind::BinaryFile,
            },
        }
    }
}

/// Each line of `ls` behind the shard key `prefix`, one after another.
pub open spec fn join_text(prefix: Seq<u8>, ls: Seq<Seq<u8>>) -> Seq<u8>
    decreases ls.len(),
{
    if ls.len() == 0 {
        Seq::empty()
    } else {
        join_text(prefix, ls.drop_last()) + prefix + ls.last()
    }
}

/// The text that the body of shard `prefix` becomes: each line behind the
/// shard key, then one carriage return and line feed.
pub open spec fn spec_text(prefix: Seq<u8>, body: Seq<u8>) -> Seq<u8> {
    join_text(prefix, spec_lines(body)) + seq![13u8, 10u8]
}

/// The eight bytes of `v`, most significant first.
pub open spec fn be_bytes(v: u64) -> Seq<u8> {
    seq![
        (v >> 56u64) as u8,
        (v >> 48u64) as u8,
        (v >> 40u64) as u8,
        (v >> 32u64) as u8,
        (v >> 24u64) as u8,
        (v >> 16u64) as u8,
        (v >> 8u64) as u8,
        v as u8,
    ]
}

/// The binary form of records: each hash, then its count in eight bytes.
pub open spec fn join_records(rs: Seq<(Seq<u8>, nat)>) -> Seq<u8>
    decreases rs.len(),
{
    if rs.len() == 0 {
        Seq::empty()
    } else {
        join_records(rs.drop_last()) + rs.last().0 + be_bytes(rs.last().1 as u64)
    }
}

/// The bytes that the body of shard `prefix` becomes in the binary format,
/// or the error of its first line that does not decode.
pub open spec fn spec_binary(prefix: Seq<u8>, body: Seq<u8>) -> Result<Seq<u8>, DecodeError> {
    match spec_records(prefix, spec_lines(body)) {
        Ok(rs) => Ok(join_records(rs)),
        Err(e) => Err(e),
    }
}

/// The bytes that the body of shard `prefix` becomes in sink `kind`.
pub open spec fn spec_encode(kind: SinkKind, prefix: Seq<u8>, body: Seq<u8>) -> Result<
    Seq<u8>,
    DecodeError,
> {
    match kind {
        SinkKind::BinaryFile => spec_binary(prefix, body),
        _ => Ok(spec_text(prefix, body)),
    }
}

/// The text lines for the body of shard `prefix`.
pub fn encode_text(prefix: &HashPrefix, piece: &[u8]) -> (r: Vec<u8>)
    ensures
        r@ == spec_text(prefix@, piece@),
{
    let ls = lines(piece);
    let ghost sl = spec_lines(piece@);
    let mut out: Vec<u8> = Vec::new();
    let mut k: usize = 0;
    while k < ls.len()
        invariant
            sl == spec_lines(piece@),
            k <= ls@.len() == sl.len(),
            forall|i: int| 0 <= i < ls@.len() ==> (#[trigger] ls@[i])@ == sl[i],
            out@ == join_text(prefix@, sl.subrange(0, k as int)),
        decreases ls@.len() - k,
    {
        assert(sl.subrange(0, k + 1).drop_last() =~= sl.subrange(0, k as int));
        append(&mut out, prefix);
        append(&mut out, ls[k].as_slice());
        k = k + 1;
    }
    assert(sl.subrange(0, k as int) =~= sl);
    out.push(13u8);
    out.push(10u8);
    assert(out@ =~= spec_text(prefix@, piece@));
    out
}

/// Appends the eight bytes of `v`, most significant first.
pub fn append_u64(out: &mut Vec<u8>, v: u64)
    ensures
        final(out)@ == old(out)@ + be_bytes(v),
{
    out.push((v >> 56u64) as u8);
    out.push((v >> 48u64) as u8);
    out.push((v >> 40u64) as u8);
    out.push((v >> 32u64) as u8);
    out.push((v >> 24u64) as u8);
    out.push((v >> 16u64) as u8);
    out.push((v >> 8u64) as u8);
    out.push(v as u8);
    assert(final(out)@ =~= old(out)@ + be_bytes(v));
}

/// The 28-byte records for the body of shard `prefix`: for each line its
/// 20-byte hash, then its count as eight bytes, most significant first.
pub fn encode_binary(prefix: &HashPrefix, piece: &[u8]) -> (r: Result<Vec<u8>, DecodeError>)
    ensures
        r is Ok <==> spec_binary(prefix@, piece@) is Ok,
        r is Ok ==> r->Ok_0@ == spec_binary(prefix@, piece@)->Ok_0,
        r is Err ==> spec_binary(prefix@, piece@) == Err::<Seq<u8>, DecodeError>(r->Err_0),
{
    let records = match hash_and_prevalance(prefix, piece) {
        Ok(records) => records,
        Err(e) => {
            return Err(e);
        },
    };
    let ghost rs = spec_records(prefix@, spec_lines(piece@))->Ok_0;
    let mut out: Vec<u8> = Vec::new();
    let mut k: usize = 0;
    while k < records.len()
        invariant
            k <= records@.len() == rs.len(),
            forall|i: int|
                0 <= i < rs.len() ==> (#[trigger] records@[i]).0@ == rs[i].0 && records@[i].1
                    == rs[i].1,
            out@ == join_records(rs.subrange(0, k as int)),
        decreases records@.len() - k,
    {
        assert(rs.subrange(0, k + 1).drop_last() =~= rs.subrange(0, k as int));
        let (hash, count) = records[k];
        append(&mut out, &hash);
        append_u64(&mut out, count);
        k = k + 1;
    }
    assert(rs.subrange(0, k as int) =~= rs);
    Ok(out)
}

/// The bytes that sink `kind` writes for the body of shard `prefix`.
pub fn encode(kind: SinkKind, prefix: &HashPrefix, piece: &[u8]) -> (r: Result<
    Vec<u8>,
    DecodeError,
>)
    ensures
        r is Ok <==> spec_encode(kind, prefix@, piece@) is Ok,
        r is Ok ==> r->Ok_0@ == spec_encode(kind, prefix@, piece@)->Ok_0,
        r is Err ==> spec_encode(kind, prefix@, piece@) == Err::<Seq<u8>, DecodeError>(
            r->Err_0,
        ),
{
    match kind {
        SinkKind::BinaryFile => encode_binary(prefix, piece),
        _ => Ok(encode_text(prefix, piece)),
    }
}

/// The binary form of a body does not depend on a final carriage return and
/// line feed.
pub proof fn lemma_binary_terminated(prefix: Seq<u8>, b: Seq<u8>)
    requires
        b.len() > 0,
        b.last() != 10u8,
    ensures
        spec_binary(prefix, b + crlf()) == spec_binary(prefix, b),
{
    lemma_records_terminated(prefix, b);
}

/// Whether `body` is one line: no break before its last byte.
pub open spec fn is_single_line(body: Seq<u8>) -> bool {
    body.len() > 0 && forall|i: int| 0 <= i < body.len() - 1 ==> !#[trigger] is_break(body, i)
}

/// Whether the line `body` holds a record behind any shard key: a suffix of
/// hexadecimal digits, a colon, and a count that fits in 64 bits.
pub open spec fn is_record_line(body: Seq<u8>) -> bool {
    &&& body.len() >= 36
    &&& body[35] == 58u8
    &&& all_hex(body.subrange(0, 35))
    &&& count_field(body).len() > 0
    &&& all_digits(count_field(body))
    &&& decimal_value(count_field(body)) <= u64::MAX
}

/// A one-line body becomes one text line behind the shard key, and in the
/// binary format the one record that the line decodes to.
pub proof fn lemma_single_line_body(prefix: Seq<u8>, body: Seq<u8>)
    requires
        is_single_line(body),
    ensures
        spec_text(prefix, body) == prefix + body + crlf(),
        spec_binary(prefix, body) == (match spec_decode_line(prefix, body) {
            Ok(r) => Ok(r.0 + be_bytes(r.1 as u64)),
            Err(e) => Err(e),
        }),
{
    lemma_single_line(body);
    let ls = spec_lines(body);
    assert(ls.drop_last() =~= Seq::<Seq<u8>>::empty());
    assert(join_text(prefix, ls.drop_last()) == Seq::<u8>::empty());
    assert(spec_text(prefix, body) =~= prefix + body + crlf());
    match spec_decode_line(prefix, body) {
        Ok(r) => {
            assert(spec_records(prefix, ls.drop_last()) == Ok::<Seq<(Seq<u8>, nat)>, DecodeError>(
                Seq::empty(),
            ));
            let rs = seq![r];
            assert(Seq::<(Seq<u8>, nat)>::empty().push(r) =~= rs);
            assert(rs.drop_last() =~= Seq::<(Seq<u8>, nat)>::empty());
            assert(join_records(rs.drop_last()) == Seq::<u8>::empty());
            assert(join_records(rs) =~= r.0 + be_bytes(r.1 as u64));
        },
        Err(e) => {},
    }
}

/// The text that a run writes when every shard among the first `n` of the
/// enumeration answers with `body`.
pub open spec fn text_dataset(body: Seq<u8>, n: nat) -> Seq<u8>
    decreases n,
{
    if n == 0 {
        Seq::empty()
    } else {
        text_dataset(body, (n - 1) as nat) + spec_text(spec_range_at((n - 1) as nat), body)
    }
}

/// The binary records that a run writes when every shard among the first
/// `n` of the enumeration answers with `body`.
pub open spec fn binary_dataset(body: Seq<u8>, n: nat) -> Result<Seq<u8>, DecodeError>
    decreases n,
{
    if n == 0 {
        Ok(Seq::empty())
    } else {
        match binary_dataset(body, (n - 1) as nat) {
            Err(e) => Err(e),
            Ok(o) => match spec_binary(spec_range_at((n - 1) as nat), body) {
                Ok(x) => Ok(o + x),
                Err(e) => Err(e),
            },
        }
    }
}

/// When every shard answers with the same one-line body, the text output
/// holds one line of `body.len() + 5` bytes and one empty line per shard.
pub proof fn lemma_text_dataset(body: Seq<u8>, n: nat)
    requires
        is_single_line(body),
        n <= spec_total_len(),
    ensures
        text_dataset(body, n).len() == n * (body.len() + 7),
    decreases n,
{
    if n > 0 {
        lemma_text_dataset(body, (n - 1) as nat);
        lemma_single_line_body(spec_range_at((n - 1) as nat), body);
        let k = spec_range_at((n - 1) as nat);
        assert(k.len() == 5);
        let m = body.len() + 7;
        let p = (n - 1) as nat;
        assert(spec_text(k, body).len() == m);
        assert(text_dataset(body, n).len() == text_dataset(body, p).len() + m);
        assert(p * m + m == n * m) by (nonlinear_arith)
            requires
                p == n - 1,
        ;
    } else {
        assert(n * (body.len() + 7) == 0) by (nonlinear_arith)
            requires
                n == 0,
        ;
    }
}

/// When every shard answers with the same one-line record, the binary output
/// is one 28-byte record per shard.
pub proof fn lemma_binary_dataset(body: Seq<u8>, n: nat)
    requires
        is_single_line(body),
        is_record_line(body),
        n <= spec_total_len(),
    ensures
        binary_dataset(body, n) is Ok,
        binary_dataset(body, n)->Ok_0.len() == n * 28,
    decreases n,
{
    if n > 0 {
        let k = spec_range_at((n - 1) as nat);
        lemma_binary_dataset(body, (n - 1) as nat);
        lemma_single_line_body(k, body);
        lemma_ranges_distinct((n - 1) as nat, if n == 1 { 1 } else { 0 });
        let d = hash_digits(k, body);
        assert(d.len() == 40);
        assert forall|i: int| 0 <= i < 40 implies crate::decode::is_hex_digit(#[trigger] d[i]) by {
            if i < 5 {
                assert(d[i] == k[i]);
            } else {
                assert(d[i] == body.subrange(0, 35)[i - 5]);
            }
        }
        assert(spec_decode_line(k, body) is Ok);
        assert((n - 1) * 28 + 28 == n * 28) by (nonlinear_arith);
    }
}

} // verus!
