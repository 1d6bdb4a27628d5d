use vstd::prelude::*;

verus! {

/// A shard key: five symbols of the hexadecimal alphabet, as bytes.
pub type HashPrefix = [u8; 5];

/// Number of symbols in the shard key alphabet.
pub const ALPHABET_SIZE: u64 = 16;

/// The number of distinct shard keys, `ALPHABET_SIZE` to the fifth power.
pub open spec fn spec_total_len() -> nat {
    1048576
}

/// The symbol that stands for digit `d` (`0`..`9`, then `A`..`F`).
pub open spec fn spec_symbol(d: nat) -> u8 {
    if d < 10 {
        (48 + d) as u8
    } else {
        (55 + d) as u8
    }
}

/// Whether `c` is one of the sixteen alphabet symbols.
pub open spec fn is_symbol(c: u8) -> bool {
    (48 <= c && c <= 57) || (65 <= c && c <= 70)
}

/// The `n`-th shard key of the enumeration: `n` written in base sixteen with
/// five digits, most significant first.
pub open spec fn spec_range_at(n: nat) -> Seq<u8> {
    seq![
        spec_symbol(n / 65536 % 16),
        spec_symbol(n / 4096 % 16),
        spec_symbol(n / 256 % 16),
        spec_symbol(n / 16 % 16),
        spec_symbol(n % 16),
    ]
}

/// Whether `k` is a shard key: five alphabet symbols.
pub open spec fn is_shard_key(k: Seq<u8>) -> bool {
    k.len() == 5 && forall|i: int| 0 <= i < 5 ==> is_symbol(#[trigger] k[i])
}

/// The value of alphabet symbol `c`.
pub open spec fn spec_symbol_value(c: u8) -> nat {
    if c <= 57 {
        (c - 48) as nat
    } else {
        (c - 55) as nat
    }
}

/// The position of shard key `k` in the enumeration.
pub open spec fn spec_index_of(k: Seq<u8>) -> nat {
    spec_symbol_value(k[0]) * 65536 + spec_symbol_value(k[1]) * 4096
        + spec_symbol_value(k[2]) * 256 + spec_symbol_value(k[3]) * 16
        + spec_symbol_value(k[4])
}

/// Total number of shard keys, for progress sizing.
pub fn total_len() -> (r: u64)
    ensures
        r == spec_total_len(),
        r == ALPHABET_SIZE * ALPHABET_SIZE * ALPHABET_SIZE * ALPHABET_SIZE * ALPHABET_SIZE,
{
    ALPHABET_SIZE * ALPHABET_SIZE * ALPHABET_SIZE * ALPHABET_SIZE * ALPHABET_SIZE
}

/// The alphabet symbol for digit `d`.
pub fn symbol(d: u32) -> (r: u8)
    requires
        d < 16,
    ensures
        r == spec_symbol(d as nat),
        is_symbol(r),
{
    if d < 10 {
        48 + d as u8
    } else {
        55 + d as u8
    }
}

/// The `n`-th shard key of the enumeration.
pub fn range_at(n: u32) -> (r: HashPrefix)
    requires
        n < spec_total_len(),
    ensures
        r@ == spec_range_at(n as nat),
{
    let r: HashPrefix = [
        symbol(n / 65536 % 16),
        symbol(n / 4096 % 16),
        symbol(n / 256 % 16),
        symbol(n / 16 % 16),
        symbol(n % 16),
    ];
    assert(r@ =~= spec_range_at(n as nat));
    r
}

/// Every shard key, in enumeration order: the last symbol varies fastest.
pub fn all_ranges_iter() -> (r: Vec<HashPrefix>)
    ensures
        r@.len() == spec_total_len(),
        forall|i: int| 0 <= i < r@.len() ==> (#[trigger] r@[i])@ == spec_range_at(i as nat),
{
    let total: u32 = 1048576;
    let mut r: Vec<HashPrefix> = Vec::new();
    let mut n: u32 = 0;
    while n < total
        invariant
            total == spec_total_len(),
            n <= total,
            r@.len() == n,
            forall|i: int| 0 <= i < r@.len() ==> (#[trigger] r@[i])@ == spec_range_at(i as nat),
        decreases total - n,
    {
        r.push(range_at(n));
        n = n + 1;
    }
    r
}

proof fn lemma_digits_determine(n: u32, m: u32)
    requires
        n < 1048576,
        m < 1048576,
        n / 65536 % 16 == m / 65536 % 16,
        n / 4096 % 16 == m / 4096 % 16,
        n / 256 % 16 == m / 256 % 16,
        n / 16 % 16 == m / 16 % 16,
        n % 16 == m % 16,
    ensures
        n == m,
{
    assert(n == m) by (bit_vector)
        requires
            n < 1048576,
            m < 1048576,
            n / 65536 % 16 == m / 65536 % 16,
            n / 4096 % 16 == m / 4096 % 16,
            n / 256 % 16 == m / 256 % 16,
            n / 16 % 16 == m / 16 % 16,
            n % 16 == m % 16,
    ;
}

/// Two different positions of the enumeration give two different shard keys,
/// and each key of the enumeration is made of alphabet symbols: the enumeration
/// yields `spec_total_len()` distinct shard keys.
pub proof fn lemma_ranges_distinct(i: nat, j: nat)
    requires
        i < spec_total_len(),
        j < spec_total_len(),
        i != j,
    ensures
        spec_range_at(i) != spec_range_at(j),
        is_shard_key(spec_range_at(i)),
{
    let (n, m) = (i as u32, j as u32);
    if spec_range_at(i) == spec_range_at(j) {
        assert(spec_range_at(i)[0] == spec_range_at(j)[0]);
        assert(spec_range_at(i)[1] == spec_range_at(j)[1]);
        assert(spec_range_at(i)[2] == spec_range_at(j)[2]);
        assert(spec_range_at(i)[3] == spec_range_at(j)[3]);
        assert(spec_range_at(i)[4] == spec_range_at(j)[4]);
        lemma_digits_determine(n, m);
    }
    let k = spec_range_at(i);
    assert(is_symbol(k[0]) && is_symbol(k[1]) && is_symbol(k[2]) && is_symbol(k[3])
        && is_symbol(k[4]));
}

/// Every shard key occurs in the enumeration, at the position that its
/// symbols give in base sixteen.
pub proof fn lemma_range_of_every_key(k: Seq<u8>)
    requires
        is_shard_key(k),
    ensures
        spec_index_of(k) < spec_total_len(),
        spec_range_at(spec_index_of(k)) == k,
{
    assert(is_symbol(k[0]) && is_symbol(k[1]) && is_symbol(k[2]) && is_symbol(k[3])
        && is_symbol(k[4]));
    let (a, b, c, d, e) = (
        spec_symbol_value(k[0]) as u32,
        spec_symbol_value(k[1]) as u32,
        spec_symbol_value(k[2]) as u32,
        spec_symbol_value(k[3]) as u32,
        spec_symbol_value(k[4]) as u32,
    );
    let n: u32 = (a * 65536 + b * 4096 + c * 256 + d * 16 + e) as u32;
    assert(n < 1048576 && n / 65536 % 16 == a && n / 4096 % 16 == b && n / 256 % 16 == c
        && n / 16 % 16 == d && n % 16 == e) by (bit_vector)
        requires
            a < 16,
            b < 16,
            c < 16,
            d < 16,
            e < 16,
            n == (a * 65536 + b * 4096 + c * 256 + d * 16 + e) as u32,
    ;
    assert(spec_range_at(n as nat) =~= k);
}

} // verus!
