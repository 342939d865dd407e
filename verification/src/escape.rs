//! Building terminal escape sequences as bytes.

use vstd::prelude::*;

verus! {

/// The decimal digits of `n`, most significant first, as ASCII bytes.
pub open spec fn decimal(n: nat) -> Seq<u8>
    decreases n,
{
    if n < 10 {
        seq![(48 + n) as u8]
    } else {
        decimal(n / 10).push((48 + n % 10) as u8)
    }
}

/// Appends the decimal digits of `n` to `out`.
pub fn push_decimal(out: &mut Vec<u8>, n: u32)
    ensures
        final(out)@ == old(out)@ + decimal(n as nat),
    decreases n,
{
    if n >= 10 {
        push_decimal(out, n / 10);
    }
    out.push(48 + (n % 10) as u8);
    proof {
        assert(final(out)@ =~= old(out)@ + decimal(n as nat));
    }
}

/// Appends every byte of `bytes` to `out`.
pub fn push_bytes(out: &mut Vec<u8>, bytes: &[u8])
    ensures
        final(out)@ == old(out)@ + bytes@,
{
    let ghost start = out@;
    let mut i: usize = 0;
    while i < bytes.len()
        invariant
            i <= bytes@.len(),
            out@ == start + bytes@.take(i as int),
        decreases bytes@.len() - i,
    {
        out.push(bytes[i]);
        assert(bytes@.take(i + 1) =~= bytes@.take(i as int).push(bytes@[i as int]));
        i = i + 1;
    }
    assert(bytes@.take(bytes@.len() as int) =~= bytes@);
}

/// `ESC [ s`: save the cursor position.
pub open spec fn save_cursor() -> Seq<u8> {
    seq![0x1b, 0x5b, 0x73]
}

/// `ESC [ u`: restore the saved cursor position.
pub open spec fn restore_cursor() -> Seq<u8> {
    seq![0x1b, 0x5b, 0x75]
}

/// `ESC [ row ; col H`: move the cursor to a 1-indexed position.
pub open spec fn cursor_to(row: nat, col: nat) -> Seq<u8> {
    seq![0x1bu8, 0x5bu8] + decimal(row) + seq![0x3bu8] + decimal(col) + seq![0x48u8]
}

/// Appends `ESC [ row ; col H` to `out`.
pub fn push_cursor_to(out: &mut Vec<u8>, row: u32, col: u32)
    ensures
        final(out)@ == old(out)@ + cursor_to(row as nat, col as nat),
{
    push_bytes(out, &[0x1b, 0x5b]);
    push_decimal(out, row);
    push_bytes(out, &[0x3b]);
    push_decimal(out, col);
    push_bytes(out, &[0x48]);
    proof {
        assert(final(out)@ =~= old(out)@ + cursor_to(row as nat, col as nat));
    }
}

/// Appends the bytes `src[start..end]` to `out`.
pub fn push_range(out: &mut Vec<u8>, src: &[u8], start: usize, end: usize)
    requires
        start <= end <= src@.len(),
    ensures
        final(out)@ == old(out)@ + src@.subrange(start as int, end as int),
{
    let ghost base = out@;
    let mut i = start;
    while i < end
        invariant
            start <= i <= end,
            end <= src@.len(),
            out@ == base + src@.subrange(start as int, i as int),
        decreases end - i,
    {
        out.push(src[i]);
        assert(src@.subrange(start as int, i + 1) =~= src@.subrange(start as int, i as int).push(
            src@[i as int],
        ));
        i = i + 1;
    }
}

} // verus!
