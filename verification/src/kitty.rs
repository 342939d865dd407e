//! Placing images in the terminal: deciding whether the Kitty graphics protocol is available,
//! and building the bytes that draw an image next to the readouts.

use base64::engine::general_purpose::STANDARD;
use base64::Engine;
use image::{DynamicImage, ImageFormat};
use vstd::prelude::*;

use crate::escape::{
    cursor_to, decimal, push_bytes, push_cursor_to, push_decimal, push_range, restore_cursor,
    save_cursor,
};

verus! {

// ---------------------------------------------------------------------------------------------
// Output captured from chafa
// ---------------------------------------------------------------------------------------------

/// The bytes of `s` with every occurrence of `pat` removed, matching left to right without
/// overlap (what `str::replace(pat, "")` does).
pub open spec fn remove_all(s: Seq<u8>, pat: Seq<u8>) -> Seq<u8>
    decreases s.len(),
{
    if pat.len() == 0 || s.len() < pat.len() {
        s
    } else if s.take(pat.len() as int) == pat {
        remove_all(s.skip(pat.len() as int), pat)
    } else {
        seq![s[0]] + remove_all(s.skip(1), pat)
    }
}

/// `ESC [ ? 25 l`: hide the cursor.
pub open spec fn hide_cursor() -> Seq<u8> {
    seq![0x1b, 0x5b, 0x3f, 0x32, 0x35, 0x6c]
}

/// `ESC [ ? 25 h`: show the cursor.
pub open spec fn show_cursor() -> Seq<u8> {
    seq![0x1b, 0x5b, 0x3f, 0x32, 0x35, 0x68]
}

/// The bytes of `s` starting at index `i` begin with `pat`.
pub open spec fn occurs_at(s: Seq<u8>, pat: Seq<u8>, i: int) -> bool {
    i + pat.len() <= s.len() && s.subrange(i, i + pat.len()) == pat
}

fn occurs_at_exec(s: &Vec<u8>, pat: &[u8], i: usize) -> (b: bool)
    requires
        i <= s@.len(),
    ensures
        b == occurs_at(s@, pat@, i as int),
{
    if pat.len() > s.len() - i {
        return false;
    }
    let n = s.len();
    let mut j: usize = 0;
    while j < pat.len()
        invariant
            n == s@.len(),
            i + pat@.len() <= s@.len(),
            j <= pat@.len(),
            forall|k: int| 0 <= k < j ==> s@[i + k] == pat@[k],
        decreases pat@.len() - j,
    {
        if s[i + j] != pat[j] {
            assert(s@.subrange(i as int, i + pat@.len())[j as int] != pat@[j as int]);
            return false;
        }
        j = j + 1;
    }
    assert(s@.subrange(i as int, i + pat@.len()) =~= pat@);
    true
}

/// Removes every occurrence of `pat` from `s`, left to right.
fn remove_all_exec(s: &Vec<u8>, pat: &[u8]) -> (r: Vec<u8>)
    requires
        pat@.len() > 0,
    ensures
        r@ == remove_all(s@, pat@),
{
    let mut out: Vec<u8> = Vec::new();
    let mut i: usize = 0;
    assert(s@.skip(0) =~= s@);
    while i < s.len()
        invariant
            i <= s@.len(),
            pat@.len() > 0,
            remove_all(s@, pat@) == out@ + remove_all(s@.skip(i as int), pat@),
        decreases s@.len() - i,
    {
        let ghost rest = s@.skip(i as int);
        if occurs_at_exec(s, pat, i) {
            assert(rest.take(pat@.len() as int) =~= s@.subrange(i as int, i + pat@.len()));
            assert(rest.skip(pat@.len() as int) =~= s@.skip(i + pat@.len()));
            i = i + pat.len();
        } else {
            proof {
                if rest.len() >= pat@.len() {
                    assert(rest.take(pat@.len() as int) =~= s@.subrange(i as int, i + pat@.len()));
                } else {
                    // what is left is too short to hold the pattern and is kept as it is
                    assert(remove_all(rest, pat@) == rest);
                    assert(rest.skip(1).len() < pat@.len());
                    assert(remove_all(rest.skip(1), pat@) == rest.skip(1));
                    assert(rest =~= seq![rest[0]] + rest.skip(1));
                }
            }
            assert(rest.skip(1) =~= s@.skip(i + 1));
            assert(remove_all(rest, pat@) == seq![s@[i as int]] + remove_all(s@.skip(i + 1), pat@));
            let ghost before = out@;
            out.push(s[i]);
            assert(out@ + remove_all(s@.skip(i + 1), pat@) =~= before + (seq![s@[i as int]]
                + remove_all(s@.skip(i + 1), pat@)));
            i = i + 1;
        }
    }
    assert(s@.skip(i as int) =~= Seq::<u8>::empty());
    assert(out@ + Seq::<u8>::empty() =~= out@);
    out
}

/// The UTF-8 bytes of `String::from_utf8_lossy(bytes)`: each invalid sequence replaced by
/// U+FFFD.
pub uninterp spec fn utf8_lossy(bytes: Seq<u8>) -> Seq<u8>;

/// std's `String::from_utf8_lossy`, taken back to bytes. Valid UTF-8 comes back unchanged, as
/// its documentation says.
#[verifier::external_body]
fn from_utf8_lossy(bytes: &[u8]) -> (r: Vec<u8>)
    ensures
        r@ == utf8_lossy(bytes@),
        vstd::utf8::valid_utf8(bytes@) ==> r@ == bytes@,
{
    String::from_utf8_lossy(bytes).into_owned().into_bytes()
}

/// chafa's output as it is drawn: decoded as UTF-8 (invalid sequences replaced), then every
/// "hide cursor" and then every "show cursor" sequence removed.
pub open spec fn cleaned_chafa(output: Seq<u8>) -> Seq<u8> {
    remove_all(remove_all(utf8_lossy(output), hide_cursor()), show_cursor())
}

/// `pat` occurs nowhere in `s`.
pub open spec fn free_of(s: Seq<u8>, pat: Seq<u8>) -> bool {
    forall|i: int| 0 <= i <= s.len() ==> !#[trigger] occurs_at(s, pat, i)
}

/// Removing a pattern that does not occur changes nothing.
pub proof fn law_remove_absent(s: Seq<u8>, pat: Seq<u8>)
    requires
        free_of(s, pat),
    ensures
        remove_all(s, pat) == s,
    decreases s.len(),
{
    if pat.len() > 0 && s.len() >= pat.len() {
        assert(!occurs_at(s, pat, 0));
        assert(s.subrange(0, pat.len() as int) =~= s.take(pat.len() as int));
        let rest = s.skip(1);
        assert forall|i: int| 0 <= i <= rest.len() implies !#[trigger] occurs_at(rest, pat, i) by {
            assert(!occurs_at(s, pat, i + 1));
            if i + pat.len() <= rest.len() {
                assert(rest.subrange(i, i + pat.len()) =~= s.subrange(i + 1, i + 1 + pat.len()));
            }
        }
        law_remove_absent(rest, pat);
        assert(s =~= seq![s[0]] + rest);
    }
}

/// Strips from chafa's output the sequences that hide and show the cursor, which the caller
/// handles itself. Valid UTF-8 that holds neither sequence comes back unchanged.
pub fn clean_chafa_output(output: &[u8]) -> (r: Vec<u8>)
    ensures
        r@ == cleaned_chafa(output@),
        vstd::utf8::valid_utf8(output@) && free_of(output@, hide_cursor()) && free_of(
            output@,
            show_cursor(),
        ) ==> r@ == output@,
{
    let text = from_utf8_lossy(output);
    let hide: [u8; 6] = [0x1b, 0x5b, 0x3f, 0x32, 0x35, 0x6c];
    let show: [u8; 6] = [0x1b, 0x5b, 0x3f, 0x32, 0x35, 0x68];
    assert(hide@ =~= hide_cursor());
    assert(show@ =~= show_cursor());
    let without_hide = remove_all_exec(&text, hide.as_slice());
    let r = remove_all_exec(&without_hide, show.as_slice());
    proof {
        if vstd::utf8::valid_utf8(output@) && free_of(output@, hide_cursor()) && free_of(
            output@,
            show_cursor(),
        ) {
            law_remove_absent(output@, hide_cursor());
            law_remove_absent(output@, show_cursor());
        }
    }
    r
}

/// `s` holds `ESC P`, the start of a sixel image.
pub open spec fn holds_sixel(s: Seq<u8>) -> bool {
    exists|i: int| 0 <= i && i + 1 < s.len() && s[i] == 0x1b && #[trigger] s[i + 1] == 0x50
}

/// Whether `s` holds a sixel image (`ESC P`) rather than symbol art.
pub fn is_sixel(s: &[u8]) -> (b: bool)
    ensures
        b == holds_sixel(s@),
{
    let n = s.len();
    if n < 2 {
        return false;
    }
    let mut i: usize = 0;
    while i < n - 1
        invariant
            n == s@.len(),
            n >= 2,
            i <= n - 1,
            forall|k: int| 0 <= k < i && k + 1 < n ==> !(s@[k] == 0x1b && #[trigger] s@[k + 1] == 0x50),
        decreases n - i,
    {
        if s[i] == 0x1b && s[i + 1] == 0x50 {
            return true;
        }
        i = i + 1;
    }
    false
}

/// The pieces of `s` between newlines (what `split(|&b| b == b'\n')` yields): one more than the
/// number of newlines, empty pieces included.
pub open spec fn split_lines(s: Seq<u8>) -> Seq<Seq<u8>>
    decreases s.len(),
{
    if s.len() == 0 {
        seq![Seq::empty()]
    } else {
        let before = split_lines(s.drop_last());
        if s.last() == 0x0a {
            before.push(Seq::empty())
        } else {
            before.update(before.len() - 1, before.last().push(s.last()))
        }
    }
}

proof fn lemma_split_lines_nonempty(s: Seq<u8>)
    ensures
        split_lines(s).len() >= 1,
    decreases s.len(),
{
    if s.len() > 0 {
        lemma_split_lines_nonempty(s.drop_last());
    }
}

/// The pieces of a prefix of `s` that a newline ends are pieces of `s`.
proof fn lemma_split_lines_prefix(s: Seq<u8>, k: int)
    requires
        0 <= k <= s.len(),
    ensures
        split_lines(s.take(k)).len() <= split_lines(s).len(),
        forall|j: int|
            0 <= j < split_lines(s.take(k)).len() - 1 ==> #[trigger] split_lines(s.take(k))[j]
                == split_lines(s)[j],
    decreases s.len(),
{
    lemma_split_lines_nonempty(s);
    if k == s.len() {
        assert(s.take(k) =~= s);
    } else {
        let init = s.drop_last();
        assert(s.take(k) =~= init.take(k));
        lemma_split_lines_prefix(init, k);
        lemma_split_lines_nonempty(init);
    }
}

/// The rows at which the non-empty pieces of symbol art are drawn fit in 16 bits.
pub open spec fn chafa_rows_fit(lines: Seq<Seq<u8>>, term_row: u16) -> bool {
    forall|i: int|
        0 <= i < lines.len() && (#[trigger] lines[i]).len() > 0 ==> term_row + i % 0x10000
            <= u16::MAX
}

/// Symbol art is refused only for a non-empty piece whose row, `term_row` plus its index, is
/// past 65535: art of any number of pieces fits when `term_row` plus that number is at most
/// 65536, and a non-empty piece with index below 65536 whose row is past 65535 does not fit.
pub proof fn law_chafa_rows_fit_by_row(lines: Seq<Seq<u8>>, term_row: u16)
    ensures
        term_row + lines.len() <= 0x10000 ==> chafa_rows_fit(lines, term_row),
        !chafa_rows_fit(lines, term_row) ==> exists|i: int|
            0 <= i < lines.len() && (#[trigger] lines[i]).len() > 0 && term_row + i > u16::MAX,
        forall|i: int|
            0 <= i < lines.len() && i < 0x10000 && (#[trigger] lines[i]).len() > 0 && term_row + i
                > u16::MAX ==> !chafa_rows_fit(lines, term_row),
{
    if !chafa_rows_fit(lines, term_row) {
        let i = choose|i: int|
            !(0 <= i < lines.len() && (#[trigger] lines[i]).len() > 0 ==> term_row + i % 0x10000
                <= u16::MAX);
        assert(i % 0x10000 <= i);
        assert(lines[i].len() > 0 && term_row + i > u16::MAX);
    }
    assert forall|i: int|
        0 <= i < lines.len() && i < 0x10000 && (#[trigger] lines[i]).len() > 0 && term_row + i
            > u16::MAX implies !chafa_rows_fit(lines, term_row) by {
        assert(i % 0x10000 == i);
    }
    if term_row + lines.len() <= 0x10000 {
        assert forall|i: int| 0 <= i < lines.len() && (#[trigger] lines[i]).len() > 0 implies term_row
            + i % 0x10000 <= u16::MAX by {
            assert(i % 0x10000 == i);
        }
    }
}

/// The first `n` pieces of symbol art, each non-empty one preceded by a move to its row
/// (`term_row` plus its index) at column `term_col`.
pub open spec fn chafa_lines(lines: Seq<Seq<u8>>, term_row: u16, term_col: u16, n: int) -> Seq<u8>
    decreases n,
{
    if n <= 0 {
        Seq::empty()
    } else {
        let before = chafa_lines(lines, term_row, term_col, n - 1);
        if lines[n - 1].len() > 0 {
            before + cursor_to((term_row + (n - 1) % 0x10000) as nat, term_col as nat) + lines[n
                - 1]
        } else {
            before
        }
    }
}

proof fn lemma_chafa_lines_prefix(a: Seq<Seq<u8>>, b: Seq<Seq<u8>>, term_row: u16, term_col: u16, n: int)
    requires
        0 <= n <= a.len(),
        n <= b.len(),
        forall|j: int| 0 <= j < n ==> a[j] == b[j],
    ensures
        chafa_lines(a, term_row, term_col, n) == chafa_lines(b, term_row, term_col, n),
    decreases n,
{
    if n > 0 {
        lemma_chafa_lines_prefix(a, b, term_row, term_col, n - 1);
    }
}

/// `ESC [ 0 m ESC [ u ESC [ ? 25 h`: reset colours, restore the cursor and show it.
pub open spec fn chafa_tail() -> Seq<u8> {
    seq![0x1b, 0x5b, 0x30, 0x6d] + restore_cursor() + show_cursor()
}

/// What is written to draw chafa's cleaned output at a 1-indexed terminal position: the cursor
/// is saved and moved there; a sixel image is sent as it is, symbol art piece by piece, each
/// non-empty piece at its own row and the same column; then colours are reset and the cursor
/// restored and shown.
pub open spec fn chafa_frame(cleaned: Seq<u8>, term_row: u16, term_col: u16) -> Seq<u8> {
    let body = if holds_sixel(cleaned) {
        cleaned
    } else {
        chafa_lines(split_lines(cleaned), term_row, term_col, split_lines(cleaned).len() as int)
    };
    save_cursor() + cursor_to(term_row as nat, term_col as nat) + body + chafa_tail()
}

/// The bytes that draw chafa's cleaned output with its top-left corner at the 1-indexed
/// terminal position (`term_row`, `term_col`).
pub fn frame_chafa(cleaned: &[u8], term_row: u16, term_col: u16) -> (out: Vec<u8>)
    requires
        !holds_sixel(cleaned@) ==> chafa_rows_fit(split_lines(cleaned@), term_row),
    ensures
        out@ == chafa_frame(cleaned@, term_row, term_col),
{
    let mut out: Vec<u8> = Vec::new();
    push_bytes(&mut out, &[0x1b, 0x5b, 0x73]);
    push_cursor_to(&mut out, term_row as u32, term_col as u32);
    let ghost head = out@;
    assert(head =~= save_cursor() + cursor_to(term_row as nat, term_col as nat));
    if is_sixel(cleaned) {
        push_bytes(&mut out, cleaned);
    } else {
        let ghost s = cleaned@;
        let ghost lines = split_lines(s);
        let n = cleaned.len();
        let mut start: usize = 0;
        let mut idx: usize = 0;
        let mut k: usize = 0;
        assert(s.take(0) =~= Seq::<u8>::empty());
        assert(s.subrange(0, 0) =~= Seq::<u8>::empty());
        while k < n
            invariant
                n == s.len(),
                s == cleaned@,
                lines == split_lines(s),
                chafa_rows_fit(lines, term_row),
                start <= k <= n,
                idx <= k,
                split_lines(s.take(k as int)).len() == idx + 1,
                split_lines(s.take(k as int))[idx as int] == s.subrange(start as int, k as int),
                out@ == head + chafa_lines(split_lines(s.take(k as int)), term_row, term_col, idx as int),
            decreases n - k,
        {
            let ghost segs = split_lines(s.take(k as int));
            assert(s.take(k + 1).drop_last() =~= s.take(k as int));
            if cleaned[k] == 0x0a {
                let ghost next = split_lines(s.take(k + 1));
                assert(next == segs.push(Seq::empty()));
                proof {
                    lemma_split_lines_prefix(s, k + 1);
                    assert(next[idx as int] == lines[idx as int]);
                    lemma_chafa_lines_prefix(segs, next, term_row, term_col, idx as int);
                }
                if start < k {
                    assert(idx < lines.len() && lines[idx as int].len() > 0);
                    let row: u16 = term_row + (idx % 0x10000) as u16;
                    push_cursor_to(&mut out, row as u32, term_col as u32);
                    push_range(&mut out, cleaned, start, k);
                }
                assert(out@ =~= head + chafa_lines(next, term_row, term_col, idx + 1));
                idx = idx + 1;
                start = k + 1;
                assert(s.subrange(start as int, (k + 1) as int) =~= Seq::<u8>::empty());
            } else {
                let ghost next = split_lines(s.take(k + 1));
                assert(next == segs.update(idx as int, segs[idx as int].push(s[k as int])));
                assert(s.subrange(start as int, k + 1) =~= s.subrange(start as int, k as int).push(s[k as int]));
                proof {
                    lemma_chafa_lines_prefix(segs, next, term_row, term_col, idx as int);
                }
            }
            k = k + 1;
        }
        assert(s.take(n as int) =~= s);
        if start < n {
            assert(idx < lines.len() && lines[idx as int].len() > 0);
            let row: u16 = term_row + (idx % 0x10000) as u16;
            push_cursor_to(&mut out, row as u32, term_col as u32);
            push_range(&mut out, cleaned, start, n);
        }
        assert(out@ =~= head + chafa_lines(lines, term_row, term_col, lines.len() as int));
    }
    let ghost body = out@;
    push_bytes(&mut out, &[0x1b, 0x5b, 0x30, 0x6d, 0x1b, 0x5b, 0x75, 0x1b, 0x5b, 0x3f, 0x32, 0x35, 0x68]);
    assert(out@ =~= chafa_frame(cleaned@, term_row, term_col));
    out
}

/// Whether every non-empty piece of the symbol art `cleaned` lands on a row that fits in 16
/// bits when drawn from `term_row` down.
fn chafa_rows_in_range(cleaned: &[u8], term_row: u16) -> (b: bool)
    ensures
        b == chafa_rows_fit(split_lines(cleaned@), term_row),
{
    let ghost s = cleaned@;
    let ghost lines = split_lines(s);
    let n = cleaned.len();
    let mut start: usize = 0;
    let mut idx: usize = 0;
    let mut k: usize = 0;
    assert(s.take(0) =~= Seq::<u8>::empty());
    proof {
        lemma_split_lines_nonempty(s);
    }
    while k < n
        invariant
            n == s.len(),
            s == cleaned@,
            lines == split_lines(s),
            start <= k <= n,
            idx <= k,
            split_lines(s.take(k as int)).len() == idx + 1,
            split_lines(s.take(k as int))[idx as int] == s.subrange(start as int, k as int),
            idx < lines.len(),
            forall|j: int|
                0 <= j < idx && (#[trigger] lines[j]).len() > 0 ==> term_row + j % 0x10000
                    <= u16::MAX,
        decreases n - k,
    {
        let ghost segs = split_lines(s.take(k as int));
        assert(s.take(k + 1).drop_last() =~= s.take(k as int));
        if cleaned[k] == 0x0a {
            proof {
                lemma_split_lines_prefix(s, k + 1);
                assert(split_lines(s.take(k + 1))[idx as int] == lines[idx as int]);
            }
            if start < k && idx % 0x10000 > (0xffff - term_row) as usize {
                assert(lines[idx as int].len() > 0);
                return false;
            }
            idx = idx + 1;
            start = k + 1;
            assert(s.subrange(start as int, (k + 1) as int) =~= Seq::<u8>::empty());
        } else {
            assert(s.subrange(start as int, k + 1) =~= s.subrange(start as int, k as int).push(
                s[k as int],
            ));
        }
        k = k + 1;
    }
    assert(s.take(n as int) =~= s);
    if start < n && idx % 0x10000 > (0xffff - term_row) as usize {
        assert(lines[idx as int].len() > 0);
        return false;
    }
    assert(idx + 1 == lines.len());
    true
}

/// The bytes that draw chafa's raw `output` at the 1-indexed terminal position
/// (`term_row`, `term_col`), after removing its cursor hide/show sequences. `None` when the
/// output is symbol art whose rows would run past row 65535.
pub fn render_chafa(output: &[u8], term_row: u16, term_col: u16) -> (r: Option<Vec<u8>>)
    ensures
        r is None <==> (!holds_sixel(cleaned_chafa(output@)) && !chafa_rows_fit(
            split_lines(cleaned_chafa(output@)),
            term_row,
        )),
        r matches Some(bytes) ==> bytes@ == chafa_frame(cleaned_chafa(output@), term_row, term_col),
{
    let cleaned = clean_chafa_output(output);
    if !is_sixel(cleaned.as_slice()) && !chafa_rows_in_range(cleaned.as_slice(), term_row) {
        return None;
    }
    Some(frame_chafa(cleaned.as_slice(), term_row, term_col))
}

// ---------------------------------------------------------------------------------------------
// Kitty graphics protocol
// ---------------------------------------------------------------------------------------------

/// Number of messages that carry `len` bytes of base64: `len / 4096`, rounded up.
pub open spec fn chunk_count(len: int) -> int {
    (len + 4095) / 4096
}

/// The `k`-th piece of at most 4096 bytes of `encoded`.
pub open spec fn chunk_of(encoded: Seq<u8>, k: int) -> Seq<u8> {
    let lo = 4096 * k;
    let hi = if 4096 * (k + 1) <= encoded.len() { 4096 * (k + 1) } else { encoded.len() as int };
    encoded.subrange(lo, hi)
}

/// The `m` key of message `k` of `count`: 1 while more messages follow, 0 on the last.
pub open spec fn more_flag(k: int, count: int) -> nat {
    if k < count - 1 { 1 } else { 0 }
}

/// `ESC _ G`: start of a graphics message.
pub open spec fn apc_start() -> Seq<u8> {
    seq![0x1b, 0x5f, 0x47]
}

/// `ESC \`: end of a graphics message.
pub open spec fn apc_end() -> Seq<u8> {
    seq![0x1b, 0x5c]
}

/// `a=T,f=100,q=2,c=`: transmit and display PNG data quietly, `c` columns wide.
pub open spec fn first_keys() -> Seq<u8> {
    seq![0x61, 0x3d, 0x54, 0x2c, 0x66, 0x3d, 0x31, 0x30, 0x30, 0x2c, 0x71, 0x3d, 0x32, 0x2c, 0x63, 0x3d]
}

/// Message `k` of `count`: the first carries the action, format, size in cells and `m`; the
/// others only `m`; each ends with its piece of base64.
pub open spec fn kitty_message(encoded: Seq<u8>, k: int, count: int, cols: u16, rows: u16) -> Seq<u8> {
    let keys = if k == 0 {
        first_keys() + decimal(cols as nat) + seq![0x2cu8, 0x72u8, 0x3du8] + decimal(rows as nat)
            + seq![0x2cu8, 0x6du8, 0x3du8]
    } else {
        seq![0x6du8, 0x3du8]
    };
    apc_start() + keys + decimal(more_flag(k, count)) + seq![0x3bu8] + chunk_of(encoded, k) + apc_end()
}

/// Every message after the first carries only the `m` key: it is exactly `ESC _ G m=`, the
/// flag (1 while more messages follow, 0 on the last), `;`, its piece of base64 and `ESC \`.
/// The first message alone carries `a=T,f=100,q=2,c=<cols>,r=<rows>,m=<flag>;`.
pub proof fn law_only_first_message_has_keys(encoded: Seq<u8>, k: int, count: int, cols: u16, rows: u16)
    requires
        0 <= k < count,
    ensures
        k > 0 ==> kitty_message(encoded, k, count, cols, rows) == seq![0x1bu8, 0x5fu8, 0x47u8, 0x6du8, 0x3du8]
            + decimal(if k + 1 < count { 1nat } else { 0nat }) + seq![0x3bu8] + chunk_of(encoded, k)
            + seq![0x1bu8, 0x5cu8],
        k == 0 ==> kitty_message(encoded, k, count, cols, rows) == seq![0x1bu8, 0x5fu8, 0x47u8]
            + seq![0x61u8, 0x3du8, 0x54u8, 0x2cu8, 0x66u8, 0x3du8, 0x31u8, 0x30u8, 0x30u8, 0x2cu8, 0x71u8, 0x3du8, 0x32u8, 0x2cu8, 0x63u8, 0x3du8]
            + decimal(cols as nat) + seq![0x2cu8, 0x72u8, 0x3du8] + decimal(rows as nat)
            + seq![0x2cu8, 0x6du8, 0x3du8] + decimal(if count > 1 { 1nat } else { 0nat })
            + seq![0x3bu8] + chunk_of(encoded, k) + seq![0x1bu8, 0x5cu8],
{
    if k > 0 {
        assert(kitty_message(encoded, k, count, cols, rows) =~= seq![0x1bu8, 0x5fu8, 0x47u8, 0x6du8, 0x3du8]
            + decimal(if k + 1 < count { 1nat } else { 0nat }) + seq![0x3bu8] + chunk_of(encoded, k)
            + seq![0x1bu8, 0x5cu8]);
    } else {
        assert(kitty_message(encoded, k, count, cols, rows) =~= seq![0x1bu8, 0x5fu8, 0x47u8]
            + seq![0x61u8, 0x3du8, 0x54u8, 0x2cu8, 0x66u8, 0x3du8, 0x31u8, 0x30u8, 0x30u8, 0x2cu8, 0x71u8, 0x3du8, 0x32u8, 0x2cu8, 0x63u8, 0x3du8]
            + decimal(cols as nat) + seq![0x2cu8, 0x72u8, 0x3du8] + decimal(rows as nat)
            + seq![0x2cu8, 0x6du8, 0x3du8] + decimal(if count > 1 { 1nat } else { 0nat })
            + seq![0x3bu8] + chunk_of(encoded, k) + seq![0x1bu8, 0x5cu8]);
    }
}

/// The first `n` messages, one after the other.
pub open spec fn kitty_messages(encoded: Seq<u8>, count: int, cols: u16, rows: u16, n: int) -> Seq<u8>
    decreases n,
{
    if n <= 0 {
        Seq::empty()
    } else {
        kitty_messages(encoded, count, cols, rows, n - 1) + kitty_message(encoded, n - 1, count, cols, rows)
    }
}

/// What is written to show base64 PNG data `encoded` as an image `cols` cells wide and `rows`
/// cells tall at the 1-indexed terminal position (`term_row`, `term_col`): the cursor is saved
/// and moved there, the data is sent in messages of at most 4096 bytes, and the cursor is
/// restored.
pub open spec fn kitty_payload(encoded: Seq<u8>, cols: u16, rows: u16, term_row: u16, term_col: u16) -> Seq<u8> {
    let count = chunk_count(encoded.len() as int);
    save_cursor() + cursor_to(term_row as nat, term_col as nat) + kitty_messages(encoded, count, cols, rows, count)
        + restore_cursor()
}

/// Appends message `k` of `count`, whose piece of base64 is `encoded[lo..hi]`.
fn push_kitty_message(
    out: &mut Vec<u8>,
    encoded: &[u8],
    k: usize,
    count: usize,
    cols: u16,
    rows: u16,
    lo: usize,
    hi: usize,
)
    requires
        lo <= hi <= encoded@.len(),
        k < count,
        encoded@.subrange(lo as int, hi as int) == chunk_of(encoded@, k as int),
    ensures
        final(out)@ == old(out)@ + kitty_message(encoded@, k as int, count as int, cols, rows),
{
    let more: u32 = if k < count - 1 { 1 } else { 0 };
    push_bytes(out, &[0x1b, 0x5f, 0x47]);
    let ghost after_start = out@;
    if k == 0 {
        push_bytes(
            out,
            &[0x61, 0x3d, 0x54, 0x2c, 0x66, 0x3d, 0x31, 0x30, 0x30, 0x2c, 0x71, 0x3d, 0x32, 0x2c, 0x63, 0x3d],
        );
        push_decimal(out, cols as u32);
        push_bytes(out, &[0x2c, 0x72, 0x3d]);
        push_decimal(out, rows as u32);
        push_bytes(out, &[0x2c, 0x6d, 0x3d]);
        assert(out@ =~= after_start + first_keys() + decimal(cols as nat) + seq![0x2cu8, 0x72u8, 0x3du8]
            + decimal(rows as nat) + seq![0x2cu8, 0x6du8, 0x3du8]);
    } else {
        push_bytes(out, &[0x6d, 0x3d]);
    }
    let ghost after_keys = out@;
    push_decimal(out, more);
    push_bytes(out, &[0x3b]);
    push_range(out, encoded, lo, hi);
    push_bytes(out, &[0x1b, 0x5c]);
    assert(out@ =~= after_keys + decimal(more_flag(k as int, count as int)) + seq![0x3bu8] + chunk_of(
        encoded@,
        k as int,
    ) + apc_end());
    assert(out@ =~= old(out)@ + kitty_message(encoded@, k as int, count as int, cols, rows));
}

/// The bytes that display base64 PNG data with the Kitty graphics protocol.
pub fn kitty_payload_bytes(encoded: &[u8], cols: u16, rows: u16, term_row: u16, term_col: u16) -> (out: Vec<u8>)
    ensures
        out@ == kitty_payload(encoded@, cols, rows, term_row, term_col),
{
    let ghost e = encoded@;
    let len = encoded.len();
    let total: usize = len / 4096 + if len % 4096 == 0 { 0 } else { 1 };
    assert(total == chunk_count(len as int));
    let mut out: Vec<u8> = Vec::new();
    push_bytes(&mut out, &[0x1b, 0x5b, 0x73]);
    push_cursor_to(&mut out, term_row as u32, term_col as u32);
    let ghost head = out@;
    let mut i: usize = 0;
    let mut pos: usize = 0;
    while i < total
        invariant
            len == e.len(),
            e == encoded@,
            total == chunk_count(len as int),
            i <= total,
            i < total ==> pos == 4096 * i && pos < len,
            out@ == head + kitty_messages(e, total as int, cols, rows, i as int),
        decreases total - i,
    {
        let end: usize = if len - pos >= 4096 { pos + 4096 } else { len };
        assert(e.subrange(pos as int, end as int) == chunk_of(e, i as int));
        push_kitty_message(&mut out, encoded, i, total, cols, rows, pos, end);
        i = i + 1;
        pos = end;
    }
    push_bytes(&mut out, &[0x1b, 0x5b, 0x75]);
    assert(out@ =~= kitty_payload(e, cols, rows, term_row, term_col));
    out
}

/// The base64 digit (RFC 4648 standard alphabet) of a 6-bit value.
pub open spec fn base64_digit(v: int) -> u8 {
    if v < 26 {
        (65 + v) as u8
    } else if v < 52 {
        (97 + v - 26) as u8
    } else if v < 62 {
        (48 + v - 52) as u8
    } else if v == 62 {
        43
    } else {
        47
    }
}

/// The standard base64 encoding (RFC 4648) of `data`: each group of three bytes becomes four
/// digits; a last group of one or two bytes becomes two or three digits and `=` padding.
pub open spec fn base64_standard(data: Seq<u8>) -> Seq<u8>
    decreases data.len(),
{
    if data.len() == 0 {
        Seq::empty()
    } else if data.len() == 1 {
        let a = data[0] as int;
        seq![base64_digit(a / 4), base64_digit((a % 4) * 16), 61u8, 61u8]
    } else if data.len() == 2 {
        let a = data[0] as int;
        let b = data[1] as int;
        seq![base64_digit(a / 4), base64_digit((a % 4) * 16 + b / 16), base64_digit((b % 16) * 4), 61u8]
    } else {
        let a = data[0] as int;
        let b = data[1] as int;
        let c = data[2] as int;
        seq![
            base64_digit(a / 4),
            base64_digit((a % 4) * 16 + b / 16),
            base64_digit((b % 16) * 4 + c / 64),
            base64_digit(c % 64),
        ] + base64_standard(data.skip(3))
    }
}

/// Base64 turns every started group of three bytes into four digits.
pub proof fn law_base64_length(data: Seq<u8>)
    ensures
        base64_standard(data).len() == 4 * ((data.len() + 2) / 3),
    decreases data.len(),
{
    if data.len() >= 3 {
        law_base64_length(data.skip(3));
    }
}

/// The 6-bit value of a base64 digit (RFC 4648 standard alphabet); 0 for any other byte.
pub open spec fn base64_value(d: u8) -> int {
    if 65 <= d <= 90 {
        d - 65
    } else if 97 <= d <= 122 {
        d - 71
    } else if 48 <= d <= 57 {
        d + 4
    } else if d == 43 {
        62
    } else if d == 47 {
        63
    } else {
        0
    }
}

/// Standard base64 decoding (RFC 4648) of well-formed input: each group of four digits gives
/// three bytes, or one or two when the group ends in `==` or `=`.
pub open spec fn base64_decode(enc: Seq<u8>) -> Seq<u8>
    decreases enc.len(),
{
    if enc.len() < 4 {
        Seq::empty()
    } else {
        let a = base64_value(enc[0]);
        let b = base64_value(enc[1]);
        let c = base64_value(enc[2]);
        let d = base64_value(enc[3]);
        let first = (a * 4 + b / 16) as u8;
        let second = ((b % 16) * 16 + c / 4) as u8;
        let third = ((c % 4) * 64 + d) as u8;
        let group = if enc[2] == 61u8 {
            seq![first]
        } else if enc[3] == 61u8 {
            seq![first, second]
        } else {
            seq![first, second, third]
        };
        group + base64_decode(enc.skip(4))
    }
}

/// Every 6-bit value has a digit, which is not the padding byte `=`, and whose value it is.
proof fn lemma_digit_value(v: int)
    requires
        0 <= v < 64,
    ensures
        base64_value(base64_digit(v)) == v,
        base64_digit(v) != 61u8,
{
}

/// One group of three bytes decodes back from its four digits.
proof fn lemma_group_round_trip(a: int, b: int, c: int)
    requires
        0 <= a < 256,
        0 <= b < 256,
        0 <= c < 256,
    ensures
        (a / 4) * 4 + ((a % 4) * 16 + b / 16) / 16 == a,
        (((a % 4) * 16 + b / 16) % 16) * 16 + ((b % 16) * 4 + c / 64) / 4 == b,
        (((b % 16) * 4 + c / 64) % 4) * 64 + c % 64 == c,
        0 <= (a % 4) * 16 + b / 16 < 64,
        0 <= (b % 16) * 4 + c / 64 < 64,
{
}

/// Decoding the standard base64 encoding of `data` gives back `data`.
pub proof fn law_base64_round_trip(data: Seq<u8>)
    ensures
        base64_decode(base64_standard(data)) == data,
    decreases data.len(),
{
    let enc = base64_standard(data);
    if data.len() == 0 {
    } else if data.len() == 1 {
        let a = data[0] as int;
        lemma_digit_value(a / 4);
        lemma_digit_value((a % 4) * 16);
        lemma_group_round_trip(a, 0, 0);
        assert(enc.skip(4) =~= Seq::<u8>::empty());
        assert(base64_value(enc[1]) == (a % 4) * 16);
        assert(base64_decode(enc) == seq![data[0]] + base64_decode(enc.skip(4)));
        assert(base64_decode(enc) =~= data);
    } else if data.len() == 2 {
        let a = data[0] as int;
        let b = data[1] as int;
        lemma_digit_value(a / 4);
        lemma_digit_value((a % 4) * 16 + b / 16);
        lemma_digit_value((b % 16) * 4);
        lemma_group_round_trip(a, b, 0);
        assert(enc.skip(4) =~= Seq::<u8>::empty());
        assert(base64_value(enc[1]) == (a % 4) * 16 + b / 16);
        assert(base64_value(enc[2]) == (b % 16) * 4);
        assert(base64_decode(enc) == seq![data[0], data[1]] + base64_decode(enc.skip(4)));
        assert(base64_decode(enc) =~= data);
    } else {
        let a = data[0] as int;
        let b = data[1] as int;
        let c = data[2] as int;
        lemma_digit_value(a / 4);
        lemma_digit_value((a % 4) * 16 + b / 16);
        lemma_digit_value((b % 16) * 4 + c / 64);
        lemma_digit_value(c % 64);
        lemma_group_round_trip(a, b, c);
        law_base64_round_trip(data.skip(3));
        assert(enc.skip(4) =~= base64_standard(data.skip(3)));
        assert(base64_value(enc[1]) == (a % 4) * 16 + b / 16);
        assert(base64_value(enc[2]) == (b % 16) * 4 + c / 64);
        assert(base64_value(enc[3]) == c % 64);
        let group = seq![data[0], data[1], data[2]];
        assert(base64_decode(enc) == group + base64_decode(enc.skip(4)));
        assert(data =~= group + data.skip(3));
    }
}

/// base64's `STANDARD.encode` (RFC 4648 alphabet with padding), taken back to bytes.
#[verifier::external_body]
fn base64_encode(data: &[u8]) -> (r: Vec<u8>)
    ensures
        r@ == base64_standard(data@),
{
    STANDARD.encode(data).into_bytes()
}

/// The bytes that display PNG data `png` as an image `cols` cells wide and `rows` cells tall at
/// the 1-indexed terminal position (`term_row`, `term_col`).
pub fn kitty_image_bytes(png: &[u8], cols: u16, rows: u16, term_row: u16, term_col: u16) -> (out: Vec<u8>)
    ensures
        out@ == kitty_payload(base64_standard(png@), cols, rows, term_row, term_col),
{
    let encoded = base64_encode(png);
    kitty_payload_bytes(encoded.as_slice(), cols, rows, term_row, term_col)
}

/// Pixel size that an image is scaled to so that it roughly fills `cols` x `rows` terminal
/// cells, taking a cell as 10 pixels wide and 20 tall.
pub fn thumbnail_size(cols: u16, rows: u16) -> (r: (u32, u32))
    ensures
        r.0 == cols * 10,
        r.1 == rows * 20,
{
    (cols as u32 * 10, rows as u32 * 20)
}

#[verifier::external_type_specification]
#[verifier::external_body]
pub struct ExDynamicImage(DynamicImage);

/// What an image holds: its colour type (as the index of the `DynamicImage` variant), width
/// and height in pixels.
pub uninterp spec fn image_header(img: DynamicImage) -> (u8, u32, u32);

/// What an image holds: its raw samples, in the byte order of `DynamicImage::as_bytes`.
pub uninterp spec fn image_samples(img: DynamicImage) -> Seq<u8>;

/// The image (header and samples) that image's `DynamicImage::thumbnail` makes of an image with
/// the given header and samples, to fit within `width` x `height` pixels.
pub uninterp spec fn thumbnail_of(header: (u8, u32, u32), samples: Seq<u8>, width: u32, height: u32) -> (
    (u8, u32, u32),
    Seq<u8>,
);

/// What image's `DynamicImage::write_to` with `ImageFormat::Png` gives for an image with the
/// given header and samples: the PNG file's bytes, or the `Display` text of its error.
pub uninterp spec fn png_of(header: (u8, u32, u32), samples: Seq<u8>) -> Result<Seq<u8>, Seq<char>>;

/// image's `DynamicImage::thumbnail`: the image scaled, keeping its aspect ratio, to fit within
/// `width` x `height` pixels. It keeps the colour type, is at least one pixel each way, and
/// at most `width` wide and `height` tall when those are at least 1 (image's
/// `resize_dimensions` rounds the scaled size and takes at least 1).
#[verifier::external_body]
fn thumbnail(img: &DynamicImage, width: u32, height: u32) -> (r: DynamicImage)
    ensures
        (image_header(r), image_samples(r)) == thumbnail_of(image_header(*img), image_samples(*img), width, height),
        image_header(r).0 == image_header(*img).0,
        image_header(r).1 >= 1,
        image_header(r).2 >= 1,
        width >= 1 ==> image_header(r).1 <= width,
        height >= 1 ==> image_header(r).2 <= height,
{
    img.thumbnail(width, height)
}

/// image's `DynamicImage::write_to` with `ImageFormat::Png` into a byte vector, its error
/// taken to its `Display` text. A PNG file starts with the 8-byte PNG signature.
#[verifier::external_body]
fn encode_png(img: &DynamicImage) -> (r: Result<Vec<u8>, String>)
    ensures
        match r {
            Ok(png) => png_of(image_header(*img), image_samples(*img)) == Ok::<Seq<u8>, Seq<char>>(png@),
            Err(text) => png_of(image_header(*img), image_samples(*img)) == Err::<Seq<u8>, Seq<char>>(text@),
        },
        r matches Ok(png) ==> png@.len() >= 8 && png@.take(8) == png_signature(),
{
    let mut png: Vec<u8> = Vec::new();
    let written = img.write_to(&mut std::io::Cursor::new(&mut png), ImageFormat::Png);
    written.map(|_| png).map_err(|e| e.to_string())
}

/// The signature that starts every PNG file.
pub open spec fn png_signature() -> Seq<u8> {
    seq![0x89u8, 0x50u8, 0x4eu8, 0x47u8, 0x0du8, 0x0au8, 0x1au8, 0x0au8]
}

/// What `render` gives for an image with the given header and samples: the Kitty payload of
/// the PNG of its thumbnail scaled to fit `cols * 10` x `rows * 20` pixels, or the text of the
/// PNG encoder's error.
pub open spec fn rendered_image(
    header: (u8, u32, u32),
    samples: Seq<u8>,
    cols: u16,
    rows: u16,
    term_row: u16,
    term_col: u16,
) -> Result<Seq<u8>, Seq<char>> {
    let t = thumbnail_of(header, samples, (cols * 10) as u32, (rows * 20) as u32);
    match png_of(t.0, t.1) {
        Ok(png) => Ok(kitty_payload(base64_standard(png), cols, rows, term_row, term_col)),
        Err(text) => Err(text),
    }
}

/// The bytes that display `img`, scaled to fit about `cols` x `rows` cells (10 x 20 pixels a
/// cell) and sent as PNG, at the 1-indexed terminal position (`term_row`, `term_col`); or the
/// text of the error that PNG encoding gave. The thumbnail keeps the colour type and is at
/// least 1 and at most `cols * 10` x `rows * 20` pixels; a PNG sent is never empty, so at least
/// one graphics message is written.
pub fn render(img: &DynamicImage, cols: u16, rows: u16, term_row: u16, term_col: u16) -> (r: Result<
    Vec<u8>,
    String,
>)
    ensures
        match rendered_image(image_header(*img), image_samples(*img), cols, rows, term_row, term_col) {
            Ok(bytes) => r matches Ok(out) && out@ == bytes,
            Err(text) => r matches Err(msg) && msg@ == text,
        },
        ({
            let t = thumbnail_of(image_header(*img), image_samples(*img), (cols * 10) as u32, (rows * 20) as u32);
            &&& t.0.0 == image_header(*img).0
            &&& 1 <= t.0.1 && (cols >= 1 ==> t.0.1 <= cols * 10)
            &&& 1 <= t.0.2 && (rows >= 1 ==> t.0.2 <= rows * 20)
            &&& png_of(t.0, t.1) matches Ok(png) ==> png.len() >= 8 && chunk_count(
                base64_standard(png).len() as int,
            ) >= 1
        }),
{
    let (px_w, px_h) = thumbnail_size(cols, rows);
    let scaled = thumbnail(img, px_w, px_h);
    let encoded = encode_png(&scaled);
    match encoded {
        Ok(png) => {
            proof {
                law_base64_length(png@);
            }
            Ok(kitty_image_bytes(png.as_slice(), cols, rows, term_row, term_col))
        },
        Err(text) => Err(text),
    }
}

/// The base64 pieces of the messages, put back together, give the whole base64 data; every
/// piece holds between 1 and 4096 bytes; and only the last message says that none follow.
pub proof fn law_chunks_reassemble(encoded: Seq<u8>, n: int)
    requires
        0 <= n <= chunk_count(encoded.len() as int),
    ensures
        chunks_joined(encoded, n) == encoded.take(
            if 4096 * n <= encoded.len() { 4096 * n } else { encoded.len() as int },
        ),
        forall|k: int|
            0 <= k < chunk_count(encoded.len() as int) ==> 1 <= (#[trigger] chunk_of(encoded, k)).len()
                <= 4096,
        forall|k: int|
            0 <= k < chunk_count(encoded.len() as int) ==> (#[trigger] more_flag(
                k,
                chunk_count(encoded.len() as int),
            ) == 0 <==> k == chunk_count(encoded.len() as int) - 1),
    decreases n,
{
    if n > 0 {
        law_chunks_reassemble(encoded, n - 1);
        assert(chunks_joined(encoded, n) =~= encoded.take(
            if 4096 * n <= encoded.len() { 4096 * n } else { encoded.len() as int },
        ));
    }
}

/// The pieces `0..n` of `encoded`, one after the other.
pub open spec fn chunks_joined(encoded: Seq<u8>, n: int) -> Seq<u8>
    decreases n,
{
    if n <= 0 {
        Seq::empty()
    } else {
        chunks_joined(encoded, n - 1) + chunk_of(encoded, n - 1)
    }
}

/// Joining all the pieces gives back the data.
pub proof fn law_all_chunks_give_data(encoded: Seq<u8>)
    ensures
        chunks_joined(encoded, chunk_count(encoded.len() as int)) == encoded,
{
    law_chunks_reassemble(encoded, chunk_count(encoded.len() as int));
    assert(encoded.take(encoded.len() as int) =~= encoded);
}

/// The base64 pieces that the messages carry for PNG data `png`, joined in order and decoded,
/// give back `png`.
pub proof fn law_chunks_decode_to_png(png: Seq<u8>)
    ensures
        base64_decode(
            chunks_joined(base64_standard(png), chunk_count(base64_standard(png).len() as int)),
        ) == png,
{
    law_all_chunks_give_data(base64_standard(png));
    law_base64_round_trip(png);
}

// ---------------------------------------------------------------------------------------------
// Terminal detection
// ---------------------------------------------------------------------------------------------

/// Whether two strings hold the same characters.
fn same_text(a: &str, b: &str) -> (r: bool)
    ensures
        r == (a@ == b@),
{
    let n = a.unicode_len();
    if n != b.unicode_len() {
        return false;
    }
    let mut i: usize = 0;
    while i < n
        invariant
            n == a@.len(),
            n == b@.len(),
            i <= n,
            forall|k: int| 0 <= k < i ==> a@[k] == b@[k],
        decreases n - i,
    {
        if a.get_char(i) != b.get_char(i) {
            return false;
        }
        i = i + 1;
    }
    assert(a@ =~= b@);
    true
}

/// The terminal shows images with the Kitty graphics protocol: `TERM` is `xterm-kitty`,
/// `KITTY_WINDOW_ID` is set to a Unicode value, or `TERM_PROGRAM` is `WezTerm`.
pub open spec fn kitty_terminal(term: Option<Seq<char>>, kitty_window_id_set: bool, term_program: Option<Seq<char>>) -> bool {
    ||| term == Some("xterm-kitty"@)
    ||| kitty_window_id_set
    ||| term_program == Some("WezTerm"@)
}

/// Each of the three signs is enough on its own, whatever the others hold: `TERM` equal to
/// `xterm-kitty`, `KITTY_WINDOW_ID` set, or `TERM_PROGRAM` equal to `WezTerm`; without any of
/// them the terminal is not taken to support the protocol.
pub proof fn law_kitty_signs_independent(
    term: Option<Seq<char>>,
    kitty_window_id_set: bool,
    term_program: Option<Seq<char>>,
)
    ensures
        kitty_window_id_set ==> kitty_terminal(term, kitty_window_id_set, term_program),
        term_program == Some("WezTerm"@) ==> kitty_terminal(term, kitty_window_id_set, term_program),
        term == Some("xterm-kitty"@) ==> kitty_terminal(term, kitty_window_id_set, term_program),
        kitty_terminal(term, kitty_window_id_set, term_program) ==> (kitty_window_id_set
            || term_program == Some("WezTerm"@) || term == Some("xterm-kitty"@)),
{
}

/// Decides from the environment whether the terminal supports the Kitty graphics protocol.
/// `term` and `term_program` are the values of `TERM` and `TERM_PROGRAM` (`None` when unset or
/// not Unicode); `kitty_window_id_set` tells whether `KITTY_WINDOW_ID` is set to a Unicode
/// value (reading it as a string succeeds).
pub fn is_supported(term: Option<&str>, kitty_window_id_set: bool, term_program: Option<&str>) -> (b: bool)
    ensures
        b == kitty_terminal(
            match term { Some(t) => Some(t@), None => None },
            kitty_window_id_set,
            match term_program { Some(t) => Some(t@), None => None },
        ),
{
    let kitty_term = match term {
        Some(t) => same_text(t, "xterm-kitty"),
        None => false,
    };
    let wezterm = match term_program {
        Some(t) => same_text(t, "WezTerm"),
        None => false,
    };
    kitty_term || kitty_window_id_set || wezterm
}

} // verus!
