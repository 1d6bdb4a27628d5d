use vstd::prelude::*;

verus! {

/// Whether a body is cut between positions `i` and `i + 1`: after a line feed
/// that no carriage return follows.
pub open spec fn is_break(s: Seq<u8>, i: int) -> bool {
    s[i] == 10u8 && s[i + 1] != 13u8
}

/// The end (exclusive) of the line that holds position `i`.
pub open spec fn line_end(s: Seq<u8>, i: nat) -> nat
    decreases s.len() - i,
{
    if i + 1 >= s.len() {
        s.len()
    } else if is_break(s, i as int) {
        i + 1
    } else {
        line_end(s, i + 1)
    }
}

/// The lines of `s` from position `start` on.
pub open spec fn lines_from(s: Seq<u8>, start: nat) -> Seq<Seq<u8>>
    decreases s.len() - start,
{
    if start >= s.len() {
        Seq::empty()
    } else {
        let e = line_end(s, start);
        if e <= start || e > s.len() {
            Seq::empty()
        } else {
            seq![s.subrange(start as int, e as int)] + lines_from(s, e)
        }
    }
}

/// The lines of a body: its maximal runs of bytes with no break inside.
pub open spec fn spec_lines(s: Seq<u8>) -> Seq<Seq<u8>> {
    lines_from(s, 0)
}

pub proof fn lemma_line_end_bounds(s: Seq<u8>, i: nat)
    requires
        i < s.len(),
    ensures
        i < line_end(s, i) <= s.len(),
    decreases s.len() - i,
{
    if i + 1 < s.len() && !is_break(s, i as int) {
        lemma_line_end_bounds(s, i + 1);
    }
}

/// Appends the bytes of `src` to `out`.
pub fn append(out: &mut Vec<u8>, src: &[u8])
    ensures
        final(out)@ == old(out)@ + src@,
{
    let mut i: usize = 0;
    while i < src.len()
        invariant
            i <= src@.len(),
            out@ == old(out)@ + src@.subrange(0, i as int),
        decreases src@.len() - i,
    {
        out.push(src[i]);
        i = i + 1;
        assert(src@.subrange(0, i as int) =~= src@.subrange(0, i - 1) + seq![src@[i - 1]]);
    }
    assert(src@.subrange(0, i as int) =~= src@);
}

/// Splits a body into lines. A line ends after a line feed unless a carriage
/// return follows it, and at the end of the body; each line keeps its
/// terminator, and an empty body has no lines.
pub fn lines(piece: &[u8]) -> (r: Vec<Vec<u8>>)
    ensures
        r@.len() == spec_lines(piece@).len(),
        forall|i: int| 0 <= i < r@.len() ==> (#[trigger] r@[i])@ == spec_lines(piece@)[i],
{
    let ghost s = piece@;
    let n = piece.len();
    let mut r: Vec<Vec<u8>> = Vec::new();
    let mut cur: Vec<u8> = Vec::new();
    let mut start: usize = 0;
    let mut i: usize = 0;
    while i < n
        invariant
            n == s.len(),
            s == piece@,
            start <= i <= n,
            i < n ==> line_end(s, start as nat) == line_end(s, i as nat),
            i == n ==> start == n,
            cur@ == s.subrange(start as int, i as int),
            forall|k: int| 0 <= k < r@.len() ==> (#[trigger] r@[k])@ == spec_lines(s)[k],
            spec_lines(s) == r@.map_values(|l: Vec<u8>| l@) + lines_from(s, start as nat),
        decreases n - i,
    {
        cur.push(piece[i]);
        proof {
            assert(cur@ =~= s.subrange(start as int, i + 1));
        }
        if i + 1 == n || (piece[i] == 10u8 && piece[i + 1] != 13u8) {
            proof {
                lemma_line_end_bounds(s, start as nat);
                assert(line_end(s, i as nat) == i + 1);
                assert(lines_from(s, start as nat) == seq![s.subrange(start as int, i + 1)]
                    + lines_from(s, (i + 1) as nat));
            }
            let line = cur;
            cur = Vec::new();
            let ghost old_r = r@;
            r.push(line);
            proof {
                assert(r@.map_values(|l: Vec<u8>| l@) =~= old_r.map_values(|l: Vec<u8>| l@)
                    + seq![s.subrange(start as int, i + 1)]);
                assert(spec_lines(s) =~= r@.map_values(|l: Vec<u8>| l@) + lines_from(
                    s,
                    (i + 1) as nat,
                ));
                assert(r@[r@.len() - 1]@ == spec_lines(s)[r@.len() - 1]);
            }
            start = i + 1;
        }
        i = i + 1;
    }
    proof {
        assert(lines_from(s, n as nat) == Seq::<Seq<u8>>::empty());
        assert(spec_lines(s) =~= r@.map_values(|l: Vec<u8>| l@));
    }
    r
}

/// A carriage return and a line feed.
pub open spec fn crlf() -> Seq<u8> {
    seq![13u8, 10u8]
}

/// `ls` with a carriage return and line feed added to its last line.
pub open spec fn terminate_last(ls: Seq<Seq<u8>>) -> Seq<Seq<u8>> {
    ls.update(ls.len() - 1, ls.last() + crlf())
}

proof fn lemma_line_end_terminated(b: Seq<u8>, i: nat)
    requires
        i < b.len(),
        b.last() != 10u8,
    ensures
        line_end(b + crlf(), i) == if line_end(b, i) == b.len() {
            b.len() + 2
        } else {
            line_end(b, i)
        },
    decreases b.len() - i,
{
    let s = b + crlf();
    let n = b.len();
    if i + 1 >= n {
        assert(s[i as int] == b.last());
        assert(!is_break(s, i as int));
        assert(s[n as int] == 13u8);
        assert(!is_break(s, n as int));
        assert(line_end(s, (n + 1) as nat) == n + 2);
        assert(line_end(s, n) == n + 2);
    } else {
        assert(s[i as int] == b[i as int] && s[i + 1 as int] == b[i + 1 as int]);
        if !is_break(b, i as int) {
            lemma_line_end_terminated(b, i + 1);
        }
    }
}

proof fn lemma_lines_from_terminated(b: Seq<u8>, i: nat)
    requires
        i < b.len(),
        b.last() != 10u8,
    ensures
        lines_from(b, i).len() > 0,
        lines_from(b, i).last().len() > 0,
        lines_from(b, i).last().last() == b.last(),
        lines_from(b + crlf(), i) == terminate_last(lines_from(b, i)),
    decreases b.len() - i,
{
    let s = b + crlf();
    let n = b.len();
    lemma_line_end_bounds(b, i);
    lemma_line_end_terminated(b, i);
    let e = line_end(b, i);
    if e == n {
        assert(lines_from(b, n) == Seq::<Seq<u8>>::empty());
        assert(lines_from(s, n + 2) == Seq::<Seq<u8>>::empty());
        assert(s.subrange(i as int, n + 2 as int) =~= b.subrange(i as int, n as int) + crlf());
        assert(lines_from(s, i) =~= terminate_last(lines_from(b, i)));
    } else {
        lemma_lines_from_terminated(b, e);
        assert(s.subrange(i as int, e as int) =~= b.subrange(i as int, e as int));
        assert(lines_from(s, i) =~= terminate_last(lines_from(b, i)));
    }
}

/// A body and the same body with a final carriage return and line feed
/// split into as many lines, which differ only in that terminator on the
/// last line.
pub proof fn lemma_lines_terminated(b: Seq<u8>)
    requires
        b.len() > 0,
        b.last() != 10u8,
    ensures
        spec_lines(b).len() > 0,
        spec_lines(b).last().len() > 0,
        spec_lines(b).last().last() == b.last(),
        spec_lines(b + crlf()) == terminate_last(spec_lines(b)),
{
    lemma_lines_from_terminated(b, 0);
}

/// A body with no break before its last byte is one line.
pub proof fn lemma_single_line(b: Seq<u8>)
    requires
        b.len() > 0,
        forall|i: int| 0 <= i < b.len() - 1 ==> !#[trigger] is_break(b, i),
    ensures
        spec_lines(b) == seq![b],
{
    lemma_line_end_unbroken(b, 0);
    assert(lines_from(b, b.len()) == Seq::<Seq<u8>>::empty());
    assert(b.subrange(0, b.len() as int) =~= b);
    assert(spec_lines(b) =~= seq![b]);
}

proof fn lemma_line_end_unbroken(b: Seq<u8>, i: nat)
    requires
        i < b.len(),
        forall|k: int| 0 <= k < b.len() - 1 ==> !#[trigger] is_break(b, k),
    ensures
        line_end(b, i) == b.len(),
    decreases b.len() - i,
{
    if i + 1 < b.len() {
        assert(!is_break(b, i as int));
        lemma_line_end_unbroken(b, i + 1);
    }
}

} // verus!
