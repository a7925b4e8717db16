use vstd::prelude::*;

use crate::world::World;
use crate::world::cell_set;

verus! {

// ---------------------------------------------------------------------------
// The template text format.
//
// A board is written as ASCII bytes: the header pair `width,height`, then one
// `;row,col` group per live cell, in the order the board holds them. Numbers
// are canonical decimals: no sign, no leading zero, and they fit in sixteen
// bits. The empty board encodes as the bare header, so every board has a
// non-empty encoding and the encoding is reversible byte for byte.
// ---------------------------------------------------------------------------

/// ASCII decimal digit.
pub open spec fn is_digit(b: u8) -> bool {
    48 <= b && b <= 57
}

/// The canonical decimal digits of `n`, most significant first.
pub open spec fn dec_digits(n: nat) -> Seq<u8>
    decreases n,
{
    if n < 10 {
        seq![(48 + n) as u8]
    } else {
        dec_digits(n / 10).push((48 + n % 10) as u8)
    }
}

/// `a,b` — two canonical decimals around an ASCII comma.
pub open spec fn pair_bytes(a: u16, b: u16) -> Seq<u8> {
    dec_digits(a as nat) + seq![44u8] + dec_digits(b as nat)
}

/// One `;row,col` group per cell, in list order.
pub open spec fn cells_bytes(cells: Seq<(u16, u16)>) -> Seq<u8>
    decreases cells.len(),
{
    if cells.len() == 0 {
        Seq::empty()
    } else {
        seq![59u8] + pair_bytes(cells[0].0, cells[0].1) + cells_bytes(cells.drop_first())
    }
}

/// The full encoding of a board: header pair, then the cell groups.
pub open spec fn encode_bytes(width: u16, height: u16, cells: Seq<(u16, u16)>) -> Seq<u8> {
    pair_bytes(width, height) + cells_bytes(cells)
}

// ---------------------------------------------------------------------------
// The grammar, as a deterministic specification-level parser. The executable
// decoder returns exactly what this parser says, so "malformed" has one
// precise meaning shared by both.
// ---------------------------------------------------------------------------

/// The first position at or after `i` that does not hold a digit.
pub open spec fn digits_end(s: Seq<u8>, i: int) -> int
    decreases s.len() - i,
    when 0 <= i <= s.len()
{
    if i == s.len() || !is_digit(s[i]) {
        i
    } else {
        digits_end(s, i + 1)
    }
}

/// The value of the digit run `s[i..j]`, most significant first.
pub open spec fn digits_val(s: Seq<u8>, i: int, j: int) -> int
    decreases j - i,
{
    if j <= i {
        0
    } else {
        10 * digits_val(s, i, j - 1) + (s[j - 1] - 48)
    }
}

/// Parse one canonical decimal at `i`: its value and the position after it.
/// `None` when no digit starts at `i`, on a leading zero, or when the value
/// does not fit in sixteen bits.
pub open spec fn num_at(s: Seq<u8>, i: int) -> Option<(u16, int)> {
    let j = digits_end(s, i);
    if j == i {
        None
    } else if j - i > 1 && s[i] == 48 {
        None
    } else if digits_val(s, i, j) > 0xFFFF {
        None
    } else {
        Some((digits_val(s, i, j) as u16, j))
    }
}

/// Parse `a,b` at `i`: the two values and the position after them.
pub open spec fn pair_at(s: Seq<u8>, i: int) -> Option<((u16, u16), int)> {
    match num_at(s, i) {
        None => None,
        Some((a, j)) => if j < s.len() && s[j] == 44 {
            match num_at(s, j + 1) {
                None => None,
                Some((b, k)) => Some(((a, b), k)),
            }
        } else {
            None
        },
    }
}

/// `digits_end` never runs backwards or past the end.
pub proof fn lemma_digits_end_bounds(s: Seq<u8>, i: int)
    requires
        0 <= i <= s.len(),
    ensures
        i <= digits_end(s, i) <= s.len(),
    decreases s.len() - i,
{
    if !(i == s.len() || !is_digit(s[i])) {
        lemma_digits_end_bounds(s, i + 1);
    }
}

/// A successful pair parse lands strictly beyond its start, within the text.
pub proof fn lemma_pair_at_bounds(s: Seq<u8>, i: int)
    requires
        0 <= i <= s.len(),
        pair_at(s, i) is Some,
    ensures
        i < pair_at(s, i)->Some_0.1 <= s.len(),
{
    lemma_digits_end_bounds(s, i);
    let j = digits_end(s, i);
    if j < s.len() && s[j] == 44 {
        lemma_digits_end_bounds(s, j + 1);
    }
}

/// Parse the `;row,col` groups from `i` to the end of the text.
pub open spec fn cells_at(s: Seq<u8>, i: int) -> Option<Seq<(u16, u16)>>
    decreases s.len() - i,
    when 0 <= i <= s.len()
{
    if i == s.len() {
        Some(Seq::empty())
    } else if s[i] != 59 {
        None
    } else {
        match pair_at(s, i + 1) {
            None => None,
            Some((p, j)) => {
                proof {
                    if pair_at(s, i + 1) is Some {
                        lemma_pair_at_bounds(s, i + 1);
                    }
                }
                match cells_at(s, j) {
                    None => None,
                    Some(rest) => Some(seq![p] + rest),
                }
            },
        }
    }
}

/// The whole grammar: header pair, then cell groups to the end.
pub open spec fn decode_spec(s: Seq<u8>) -> Option<(u16, u16, Seq<(u16, u16)>)> {
    match pair_at(s, 0) {
        None => None,
        Some((dims, j)) => match cells_at(s, j) {
            None => None,
            Some(cells) => Some((dims.0, dims.1, cells)),
        },
    }
}

/// The one recoverable failure the codec defines: text that the grammar
/// rejects.
#[derive(Clone, Copy, Debug, PartialEq, Eq, Structural)]
pub struct MalformedTemplate;

// ---------------------------------------------------------------------------
// Executable encoder.
// ---------------------------------------------------------------------------

/// Append the canonical decimal digits of `x`.
fn push_number(out: &mut Vec<u8>, x: u16)
    ensures
        final(out)@ == old(out)@ + dec_digits(x as nat),
    decreases x,
{
    if x < 10 {
        out.push(48 + x as u8);
        proof {
            assert(out@ =~= old(out)@ + dec_digits(x as nat));
        }
    } else {
        push_number(out, x / 10);
        out.push(48 + (x % 10) as u8);
        proof {
            assert(out@ =~= old(out)@ + dec_digits(x as nat));
        }
    }
}

/// Appending one cell group extends the cell encoding.
proof fn lemma_cells_bytes_push(cells: Seq<(u16, u16)>, x: (u16, u16))
    ensures
        cells_bytes(cells.push(x)) == cells_bytes(cells) + seq![59u8] + pair_bytes(x.0, x.1),
    decreases cells.len(),
{
    let whole = cells.push(x);
    if cells.len() == 0 {
        assert(whole.drop_first() =~= Seq::<(u16, u16)>::empty());
        assert(cells_bytes(whole.drop_first()) =~= Seq::<u8>::empty());
        assert(cells_bytes(cells) =~= Seq::<u8>::empty());
        assert(cells_bytes(whole) =~= cells_bytes(cells) + seq![59u8] + pair_bytes(x.0, x.1));
    } else {
        assert(whole.drop_first() =~= cells.drop_first().push(x));
        lemma_cells_bytes_push(cells.drop_first(), x);
        assert(whole[0] == cells[0]);
        assert(cells_bytes(whole) == seq![59u8] + pair_bytes(whole[0].0, whole[0].1)
            + cells_bytes(whole.drop_first()));
        assert(cells_bytes(cells) == seq![59u8] + pair_bytes(cells[0].0, cells[0].1)
            + cells_bytes(cells.drop_first()));
        assert(cells_bytes(whole) =~= cells_bytes(cells) + seq![59u8] + pair_bytes(x.0, x.1));
    }
}

impl World {
    /// Serialize this board for the template store: reversible text holding
    /// the dimensions and every live cell.
    #[verifier::loop_isolation(false)]
    pub fn encode(&self) -> (out: Vec<u8>)
        ensures
            out@ == encode_bytes(self.width, self.height, self.alive@),
    {
        let mut out: Vec<u8> = Vec::new();
        push_number(&mut out, self.width);
        out.push(44);
        push_number(&mut out, self.height);
        proof {
            assert(out@ =~= pair_bytes(self.width, self.height));
            assert(self.alive@.subrange(0, 0) =~= Seq::<(u16, u16)>::empty());
        }
        let n = self.alive.len();
        let mut i: usize = 0;
        while i < n
            invariant
                0 <= i <= n,
                n == self.alive@.len(),
                out@ == pair_bytes(self.width, self.height) + cells_bytes(
                    self.alive@.subrange(0, i as int),
                ),
            decreases n - i,
        {
            let (r, c) = self.alive[i];
            let ghost out0 = out@;
            out.push(59);
            push_number(&mut out, r);
            out.push(44);
            push_number(&mut out, c);
            proof {
                let pre = self.alive@.subrange(0, i as int);
                let cur = self.alive@.subrange(0, i + 1);
                assert(cur =~= pre.push((r, c)));
                lemma_cells_bytes_push(pre, (r, c));
                assert(out@ =~= out0 + seq![59u8] + pair_bytes(r, c));
                assert(out@ =~= pair_bytes(self.width, self.height) + cells_bytes(cur));
            }
            i += 1;
        }
        proof {
            assert(self.alive@.subrange(0, n as int) =~= self.alive@);
        }
        out
    }
}

// ---------------------------------------------------------------------------
// Executable decoder, provably equal to the specification parser.
// ---------------------------------------------------------------------------

/// Find the end of the digit run starting at `i`.
#[verifier::loop_isolation(false)]
fn scan_digits(s: &Vec<u8>, i: usize) -> (j: usize)
    requires
        i <= s@.len(),
    ensures
        j as int == digits_end(s@, i as int),
        i <= j <= s@.len(),
{
    let mut j = i;
    while j < s.len() && 48 <= s[j] && s[j] <= 57
        invariant
            i <= j <= s@.len(),
            digits_end(s@, i as int) == digits_end(s@, j as int),
        decreases s@.len() - j,
    {
        j += 1;
    }
    proof {
        lemma_digits_end_bounds(s@, j as int);
    }
    j
}

/// Digit runs have non-negative values.
proof fn lemma_digits_val_nonneg(s: Seq<u8>, i: int, j: int)
    requires
        0 <= i <= j <= s.len(),
        forall|m: int| i <= m < j ==> is_digit(s[m]),
    ensures
        digits_val(s, i, j) >= 0,
    decreases j - i,
{
    if j > i {
        lemma_digits_val_nonneg(s, i, j - 1);
    }
}

/// A digit run's value only grows as the run extends.
proof fn lemma_digits_val_grows(s: Seq<u8>, i: int, k: int, j: int)
    requires
        0 <= i <= k <= j <= s.len(),
        forall|m: int| i <= m < j ==> is_digit(s[m]),
    ensures
        0 <= digits_val(s, i, k) <= digits_val(s, i, j),
    decreases j - k,
{
    lemma_digits_val_nonneg(s, i, k);
    if j > k {
        lemma_digits_val_grows(s, i, k, j - 1);
        lemma_digits_val_nonneg(s, i, j - 1);
    }
}

/// Parse one canonical decimal, exactly as the grammar reads it.
#[verifier::loop_isolation(false)]
fn parse_num(s: &Vec<u8>, i: usize) -> (r: Option<(u16, usize)>)
    requires
        i <= s@.len(),
    ensures
        match r {
            Some((v, j)) => num_at(s@, i as int) == Some((v, j as int)) && i < j <= s@.len(),
            None => num_at(s@, i as int) is None,
        },
{
    let j = scan_digits(s, i);
    if j == i {
        return None;
    }
    if j - i > 1 && s[i] == 48 {
        return None;
    }
    proof {
        assert forall|m: int| i <= m < j implies is_digit(s@[m]) by {
            lemma_digits_end_within(s@, i as int, m);
        }
    }
    let mut acc: u32 = 0;
    let mut k = i;
    while k < j
        invariant
            i <= k <= j,
            acc <= 0xFFFF,
            acc as int == digits_val(s@, i as int, k as int),
        decreases j - k,
    {
        let d = s[k];
        acc = acc * 10 + (d - 48) as u32;
        k += 1;
        if acc > 0xFFFF {
            proof {
                lemma_digits_val_grows(s@, i as int, k as int, j as int);
            }
            return None;
        }
    }
    Some((acc as u16, j))
}

/// Every position strictly before the end of a digit run holds a digit.
proof fn lemma_digits_end_within(s: Seq<u8>, i: int, m: int)
    requires
        0 <= i <= s.len(),
        i <= m < digits_end(s, i),
    ensures
        is_digit(s[m]),
    decreases m - i,
{
    lemma_digits_end_bounds(s, i);
    if m > i {
        lemma_digits_end_within(s, i + 1, m);
    }
}

/// Parse `a,b`, exactly as the grammar reads it.
fn parse_pair(s: &Vec<u8>, i: usize) -> (r: Option<((u16, u16), usize)>)
    requires
        i <= s@.len(),
    ensures
        match r {
            Some((p, j)) => pair_at(s@, i as int) == Some((p, j as int)) && i < j <= s@.len(),
            None => pair_at(s@, i as int) is None,
        },
{
    match parse_num(s, i) {
        None => None,
        Some((a, j)) => {
            if j < s.len() && s[j] == 44 {
                match parse_num(s, j + 1) {
                    None => None,
                    Some((b, k)) => Some(((a, b), k)),
                }
            } else {
                None
            }
        },
    }
}

/// Parse the cell groups from `i` to the end, appending them to `out`,
/// exactly as the grammar reads them.
fn parse_cells(s: &Vec<u8>, i: usize, out: &mut Vec<(u16, u16)>) -> (ok: bool)
    requires
        i <= s@.len(),
    ensures
        match cells_at(s@, i as int) {
            Some(cs) => ok && final(out)@ == old(out)@ + cs,
            None => !ok,
        },
    decreases s@.len() - i,
{
    if i == s.len() {
        proof {
            assert(out@ =~= out@ + Seq::<(u16, u16)>::empty());
        }
        return true;
    }
    if s[i] != 59 {
        return false;
    }
    match parse_pair(s, i + 1) {
        None => false,
        Some((p, j)) => {
            out.push(p);
            let ghost mid = out@;
            let ok = parse_cells(s, j, out);
            proof {
                if cells_at(s@, i as int) is Some {
                    let cs = cells_at(s@, i as int)->Some_0;
                    let rest = cells_at(s@, j as int)->Some_0;
                    assert(cs =~= seq![p] + rest);
                    assert(out@ =~= old(out)@ + cs);
                }
            }
            ok
        },
    }
}

// ---------------------------------------------------------------------------
// Round trip: decoding an encoding gives back exactly what was encoded.
// ---------------------------------------------------------------------------

/// A digit run bounded by digits on the inside and a non-digit (or the end)
/// on the outside ends exactly at that boundary.
proof fn lemma_digits_end_value(s: Seq<u8>, i: int, j: int)
    requires
        0 <= i <= j <= s.len(),
        forall|m: int| i <= m < j ==> is_digit(s[m]),
        j == s.len() || !is_digit(s[j]),
    ensures
        digits_end(s, i) == j,
    decreases j - i,
{
    if i < j {
        assert(is_digit(s[i]));
        lemma_digits_end_value(s, i + 1, j);
    }
}

/// The value of a digit run depends only on the bytes it covers.
proof fn lemma_digits_val_subrange(s: Seq<u8>, i: int, j: int)
    requires
        0 <= i <= j <= s.len(),
    ensures
        digits_val(s, i, j) == digits_val(s.subrange(i, j), 0, j - i),
    decreases j - i,
{
    if i < j {
        let t = s.subrange(i, j);
        let t1 = s.subrange(i, j - 1);
        lemma_digits_val_subrange(s, i, j - 1);
        lemma_digits_val_subrange(t, 0, j - i - 1);
        assert(t.subrange(0, j - i - 1) =~= t1);
        assert(t[j - i - 1] == s[j - 1]);
    }
}

/// Canonical decimals are non-empty digit runs without a leading zero, and
/// they read back to the number they were written from.
proof fn lemma_dec_digits_props(n: nat)
    ensures
        dec_digits(n).len() >= 1,
        forall|k: int| 0 <= k < dec_digits(n).len() ==> is_digit(#[trigger] dec_digits(n)[k]),
        n >= 1 ==> dec_digits(n)[0] != 48,
        n < 10 ==> dec_digits(n).len() == 1,
        digits_val(dec_digits(n), 0, dec_digits(n).len() as int) == n,
    decreases n,
{
    let dd = dec_digits(n);
    if n < 10 {
        assert(digits_val(dd, 0, 1) == 10 * digits_val(dd, 0, 0) + (dd[0] - 48));
    } else {
        lemma_dec_digits_props(n / 10);
        let prev = dec_digits(n / 10);
        assert(dd == prev.push((48 + n % 10) as u8));
        assert(forall|k: int| 0 <= k < prev.len() ==> dd[k] == prev[k]);
        assert(digits_val(dd, 0, dd.len() as int) == 10 * digits_val(dd, 0, dd.len() - 1) + (
        dd[dd.len() - 1] - 48));
        lemma_digits_val_subrange(dd, 0, dd.len() - 1);
        assert(dd.subrange(0, dd.len() - 1) =~= prev);
        assert(digits_val(dd, 0, dd.len() - 1) == n / 10);
        assert(n == 10 * (n / 10) + n % 10);
    }
}

/// A canonical decimal embedded at `i` and followed by a non-digit (or the
/// end) parses to its number.
proof fn lemma_num_at_bytes(s: Seq<u8>, i: int, n: u16)
    requires
        0 <= i,
        i + dec_digits(n as nat).len() <= s.len(),
        forall|k: int|
            0 <= k < dec_digits(n as nat).len() ==> s[i + k] == #[trigger] dec_digits(
                n as nat,
            )[k],
        i + dec_digits(n as nat).len() == s.len() || !is_digit(
            s[i + dec_digits(n as nat).len()],
        ),
    ensures
        num_at(s, i) == Some((n, i + dec_digits(n as nat).len())),
{
    let dd = dec_digits(n as nat);
    let len = dd.len() as int;
    let j = i + len;
    lemma_dec_digits_props(n as nat);
    assert forall|m: int| i <= m < j implies is_digit(s[m]) by {
        assert(s[m] == dd[m - i]);
    }
    lemma_digits_end_value(s, i, j);
    lemma_digits_val_subrange(s, i, j);
    assert(s.subrange(i, j) =~= dd);
    assert(digits_val(s, i, j) == n);
    if j - i > 1 {
        assert(dd.len() > 1);
        assert(n as nat >= 10) by {
            if (n as nat) < 10 {
                assert(dd.len() == 1);
            }
        }
        assert(s[i] == dd[0]);
        assert(s[i] != 48);
    }
}

/// A `a,b` pair embedded at `i` and followed by a non-digit (or the end)
/// parses to its two numbers.
proof fn lemma_pair_at_bytes(s: Seq<u8>, i: int, a: u16, b: u16)
    requires
        0 <= i,
        i + pair_bytes(a, b).len() <= s.len(),
        forall|k: int| 0 <= k < pair_bytes(a, b).len() ==> s[i + k] == #[trigger] pair_bytes(
            a,
            b,
        )[k],
        i + pair_bytes(a, b).len() == s.len() || !is_digit(s[i + pair_bytes(a, b).len()]),
    ensures
        pair_at(s, i) == Some(((a, b), i + pair_bytes(a, b).len())),
{
    let da = dec_digits(a as nat);
    let db = dec_digits(b as nat);
    let pb = pair_bytes(a, b);
    let la = da.len() as int;
    let lb = db.len() as int;
    assert(pb.len() == la + 1 + lb);
    assert forall|k: int| 0 <= k < la implies s[i + k] == da[k] by {
        assert(pb[k] == da[k]);
    }
    assert(s[i + la] == pb[la]);
    assert(pb[la] == 44);
    lemma_num_at_bytes(s, i, a);
    assert(num_at(s, i) == Some((a, i + la)));
    assert forall|k: int| 0 <= k < lb implies s[i + la + 1 + k] == db[k] by {
        assert(pb[la + 1 + k] == db[k]);
    }
    lemma_num_at_bytes(s, i + la + 1, b);
    assert(num_at(s, i + la + 1) == Some((b, i + la + 1 + lb)));
}

/// A cell-group encoding that fills the text from `i` to its end parses to
/// exactly the encoded cells.
proof fn lemma_cells_at_bytes(s: Seq<u8>, i: int, cells: Seq<(u16, u16)>)
    requires
        0 <= i <= s.len(),
        s.len() - i == cells_bytes(cells).len(),
        forall|k: int| 0 <= k < cells_bytes(cells).len() ==> s[i + k] == #[trigger] cells_bytes(
            cells,
        )[k],
    ensures
        cells_at(s, i) == Some(cells),
    decreases cells.len(),
{
    let cb = cells_bytes(cells);
    if cells.len() == 0 {
        assert(i == s.len());
        assert(cells =~= Seq::<(u16, u16)>::empty());
    } else {
        let c0 = cells[0];
        let rest = cells.drop_first();
        let pb = pair_bytes(c0.0, c0.1);
        let lp = pb.len() as int;
        let rb = cells_bytes(rest);
        assert(cb == seq![59u8] + pb + rb);
        assert(s[i + 0] == cb[0]);
        assert(cb[0] == 59);
        assert(s[i] == 59);
        assert forall|k: int| 0 <= k < lp implies s[(i + 1) + k] == pb[k] by {
            assert(cb[1 + k] == pb[k]);
            assert(s[i + (1 + k)] == cb[1 + k]);
        }
        let j = i + 1 + lp;
        if rest.len() == 0 {
            assert(rb.len() == 0);
            assert(j == s.len());
        } else {
            assert(rb == seq![59u8] + pair_bytes(rest[0].0, rest[0].1) + cells_bytes(
                rest.drop_first(),
            ));
            assert(cb[1 + lp] == rb[0]);
            assert(rb[0] == 59);
            assert(s[i + (1 + lp)] == cb[1 + lp]);
            assert(s[j] == 59);
        }
        lemma_pair_at_bytes(s, i + 1, c0.0, c0.1);
        assert(pair_at(s, i + 1) == Some(((c0.0, c0.1), j)));
        assert forall|k: int| 0 <= k < rb.len() implies s[j + k] == rb[k] by {
            assert(cb[1 + lp + k] == rb[k]);
            assert(s[i + (1 + lp + k)] == cb[1 + lp + k]);
        }
        lemma_cells_at_bytes(s, j, rest);
        assert(cells_at(s, j) == Some(rest));
        assert(seq![c0] + rest =~= cells);
        assert(cells_at(s, i) == Some(cells));
    }
}

/// Round trip: for any dimensions and any cell list, decoding the encoding
/// gives back exactly those dimensions and cells. With the contracts of
/// `World::encode` and `decode`, a saved board always loads back to the same
/// dimensions and the same live-cell set.
pub proof fn lemma_encode_decode(width: u16, height: u16, cells: Seq<(u16, u16)>)
    ensures
        decode_spec(encode_bytes(width, height, cells)) == Some((width, height, cells)),
{
    let s = encode_bytes(width, height, cells);
    let pb = pair_bytes(width, height);
    let cb = cells_bytes(cells);
    let lp = pb.len() as int;
    assert forall|k: int| 0 <= k < lp implies s[0 + k] == pb[k] by {
        assert(s[k] == (pb + cb)[k]);
    }
    if cells.len() == 0 {
        assert(cb.len() == 0);
        assert(lp == s.len());
    } else {
        assert(cb == seq![59u8] + pair_bytes(cells[0].0, cells[0].1) + cells_bytes(
            cells.drop_first(),
        ));
        assert(s[lp] == cb[0]);
        assert(cb[0] == 59);
    }
    lemma_pair_at_bytes(s, 0, width, height);
    assert(pair_at(s, 0) == Some(((width, height), lp)));
    assert forall|k: int| 0 <= k < cb.len() implies s[lp + k] == cb[k] by {
        assert(s[lp + k] == (pb + cb)[lp + k]);
    }
    lemma_cells_at_bytes(s, lp, cells);
}

/// Deserialize template text. Returns the board it describes, or
/// `MalformedTemplate` exactly when the text is not in the grammar: empty
/// text, a missing or extra separator, a non-numeric token, a leading zero,
/// or a number that does not fit in sixteen bits. Cell coordinates are not
/// checked against the decoded dimensions, mirroring `World::replace_alive`.
pub fn decode(s: &Vec<u8>) -> (r: Result<World, MalformedTemplate>)
    ensures
        match decode_spec(s@) {
            Some((w, h, cells)) => r is Ok && r->Ok_0.width == w && r->Ok_0.height == h
                && r->Ok_0.live() == cell_set(cells) && r->Ok_0.wf(),
            None => r is Err,
        },
{
    match parse_pair(s, 0) {
        None => Err(MalformedTemplate),
        Some(((width, height), j)) => {
            let mut cells: Vec<(u16, u16)> = Vec::new();
            if parse_cells(s, j, &mut cells) {
                let mut board = World::create(width, height);
                board.replace_alive(cells);
                Ok(board)
            } else {
                Err(MalformedTemplate)
            }
        },
    }
}

} // verus!
