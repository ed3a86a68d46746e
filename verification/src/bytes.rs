//! Little-endian words, as every file this crate reads or writes stores them.

use vstd::prelude::*;

verus! {

/// The `n` low-order bytes of `x`, lowest first.
pub open spec fn le(x: nat, n: nat) -> Seq<u8>
    decreases n,
{
    if n == 0 {
        Seq::empty()
    } else {
        seq![(x % 256) as u8] + le(x / 256, (n - 1) as nat)
    }
}

/// The number that `b` stores, lowest byte first.
pub open spec fn value(b: Seq<u8>) -> nat
    decreases b.len(),
{
    if b.len() == 0 {
        0
    } else {
        b[0] as nat + 256 * value(b.skip(1))
    }
}

pub proof fn le_len(x: nat, n: nat)
    ensures
        le(x, n).len() == n,
    decreases n,
{
    if n > 0 {
        le_len(x / 256, (n - 1) as nat);
    }
}

/// The lowest byte comes first: the first byte has the units, and every next one counts 256
/// times as much.
pub proof fn the_lowest_byte_comes_first(x: u32, y: u64, a: Seq<u8>, b: Seq<u8>)
    requires
        a.len() == 4,
        b.len() == 8,
    ensures
        le(x as nat, 4) == seq![
            (x % 256) as u8,
            (x / 256 % 256) as u8,
            (x / 0x1_0000 % 256) as u8,
            (x / 0x100_0000) as u8,
        ],
        le(y as nat, 8)[0] == y % 256,
        value(a) == a[0] + 256 * a[1] + 0x1_0000 * a[2] + 0x100_0000 * a[3],
        value(b) == value(b.take(4)) + 0x1_0000_0000 * value(b.skip(4)),
{
    le4(x as nat);
    value4(a);
    value8(b);
    le_len(y as nat, 8);
}

/// Words lie one after the other, four bytes each.
pub proof fn words_lie_in_order(ws: Seq<u32>, i: int)
    requires
        0 <= i < ws.len(),
    ensures
        words_le(ws).len() == 4 * ws.len(),
        words_le(ws).subrange(4 * i, 4 * i + 4) == le(ws[i] as nat, 4),
    decreases ws.len(),
{
    words_le_len(ws);
    words_le_len(ws.drop_last());
    le_len(ws.last() as nat, 4);
    if i < ws.len() - 1 {
        words_lie_in_order(ws.drop_last(), i);
        assert(words_le(ws).subrange(4 * i, 4 * i + 4) =~= words_le(ws.drop_last()).subrange(
            4 * i,
            4 * i + 4,
        ));
    } else {
        assert(words_le(ws).subrange(4 * i, 4 * i + 4) =~= le(ws.last() as nat, 4));
    }
}

/// Four bytes hold any 32-bit number, and reading them gives it back.
pub proof fn le4_reads_back(x: u32)
    ensures
        le(x as nat, 4).len() == 4,
        value(le(x as nat, 4)) == x,
{
    le_len(x as nat, 4);
    value4(le(x as nat, 4));
    le4(x as nat);
}

/// Eight bytes hold any 64-bit number, and reading them gives it back.
pub proof fn le8_reads_back(x: u64)
    ensures
        le(x as nat, 8).len() == 8,
        value(le(x as nat, 8)) == x,
{
    le_len(x as nat, 8);
    let low = (x % 4294967296) as u32;
    let high = (x / 4294967296) as u32;
    le4_reads_back(low);
    le4_reads_back(high);
    halves(x as nat);
    let b = le(x as nat, 8);
    assert(b.take(4) =~= le(low as nat, 4));
    assert(b.skip(4) =~= le(high as nat, 4));
    value8(b);
}

/// The low and the high half of an eight-byte number are its first and its last
/// four bytes.
proof fn halves(x: nat)
    ensures
        le(x, 8) =~= le(x % 4294967296, 4) + le(x / 4294967296, 4),
{
    le8(x);
    let q = x / 4294967296;
    let r = x % 4294967296;
    assert(x == 4294967296 * q + r);
    assert(x % 256 == r % 256 && x / 256 == 16777216 * q + r / 256);
    let x1 = x / 256;
    let r1 = r / 256;
    assert(x1 % 256 == r1 % 256 && x1 / 256 == 65536 * q + r1 / 256);
    let x2 = x1 / 256;
    let r2 = r1 / 256;
    assert(x2 % 256 == r2 % 256 && x2 / 256 == 256 * q + r2 / 256);
    let x3 = x2 / 256;
    let r3 = r2 / 256;
    assert(r3 < 256);
    assert(x3 % 256 == r3 % 256 && x3 / 256 == q);
    le4(x);
    le4(r);
}

proof fn le4(x: nat)
    ensures
        le(x, 4) =~= seq![
            (x % 256) as u8,
            (x / 256 % 256) as u8,
            (x / 256 / 256 % 256) as u8,
            (x / 256 / 256 / 256 % 256) as u8,
        ],
{
    reveal_with_fuel(le, 5);
}

proof fn le8(x: nat)
    ensures
        le(x, 8) =~= le(x, 4) + le(x / 256 / 256 / 256 / 256, 4),
{
    reveal_with_fuel(le, 9);
}

proof fn value4(b: Seq<u8>)
    requires
        b.len() == 4,
    ensures
        value(b) == b[0] + 256 * b[1] + 65536 * b[2] + 16777216 * b[3],
        value(b) <= u32::MAX,
{
    reveal_with_fuel(value, 5);
}

proof fn value8(b: Seq<u8>)
    requires
        b.len() == 8,
    ensures
        value(b) == value(b.take(4)) + 4294967296 * value(b.skip(4)),
        value(b) <= u64::MAX,
{
    reveal_with_fuel(value, 5);
    value4(b.take(4));
    value4(b.skip(4));
    assert(b.skip(1).skip(1).skip(1).skip(1) =~= b.skip(4));
}

pub fn push_u32(out: &mut Vec<u8>, x: u32)
    ensures
        final(out)@ == old(out)@ + le(x as nat, 4),
{
    let ghost before = out@;
    out.push((x % 256) as u8);
    out.push((x / 256 % 256) as u8);
    out.push((x / 256 / 256 % 256) as u8);
    out.push((x / 256 / 256 / 256 % 256) as u8);
    proof {
        le4(x as nat);
        assert(out@ =~= before + le(x as nat, 4));
    }
}

pub fn push_u64(out: &mut Vec<u8>, x: u64)
    ensures
        final(out)@ == old(out)@ + le(x as nat, 8),
{
    let ghost before = out@;
    push_u32(out, (x % 4294967296) as u32);
    push_u32(out, (x / 4294967296) as u32);
    proof {
        halves(x as nat);
        assert(out@ =~= before + le(x as nat, 8));
    }
}

pub fn read_u32(b: &[u8], at: usize) -> (x: u32)
    requires
        at + 4 <= b@.len(),
    ensures
        x == value(b@.subrange(at as int, at + 4)),
{
    proof {
        value4(b@.subrange(at as int, at + 4));
    }
    b[at] as u32 + 256 * (b[at + 1] as u32) + 65536 * (b[at + 2] as u32) + 16777216 * (b[at + 3] as u32)
}

pub fn read_u64(b: &[u8], at: usize) -> (x: u64)
    requires
        at + 8 <= b@.len(),
    ensures
        x == value(b@.subrange(at as int, at + 8)),
{
    assert(b@.len() == b.len());
    let low: u32 = read_u32(b, at);
    let high: u32 = read_u32(b, at + 4);
    proof {
        let s = b@.subrange(at as int, at + 8);
        value8(s);
        assert(s.take(4) =~= b@.subrange(at as int, at + 4));
        assert(s.skip(4) =~= b@.subrange(at + 4, at + 8));
    }
    low as u64 + 4294967296 * (high as u64)
}

/// The words of `ws`, four bytes each, one behind the other.
pub open spec fn words_le(ws: Seq<u32>) -> Seq<u8>
    decreases ws.len(),
{
    if ws.len() == 0 {
        Seq::empty()
    } else {
        words_le(ws.drop_last()) + le(ws.last() as nat, 4)
    }
}

/// The words that `b` stores, four bytes each; bytes behind the last whole word do
/// not count.
pub open spec fn words_of(b: Seq<u8>) -> Seq<u32> {
    Seq::new(b.len() / 4, |i: int| value(b.subrange(4 * i, 4 * i + 4)) as u32)
}

pub proof fn words_le_len(ws: Seq<u32>)
    ensures
        words_le(ws).len() == 4 * ws.len(),
    decreases ws.len(),
{
    if ws.len() > 0 {
        words_le_len(ws.drop_last());
        le_len(ws.last() as nat, 4);
    }
}

/// Reading words back gives what was written.
pub proof fn words_read_back(ws: Seq<u32>)
    ensures
        words_of(words_le(ws)) == ws,
    decreases ws.len(),
{
    words_le_len(ws);
    if ws.len() > 0 {
        let init = ws.drop_last();
        words_read_back(init);
        words_le_len(init);
        le4_reads_back(ws.last());
        let b = words_le(ws);
        assert forall|i: int| 0 <= i < ws.len() implies #[trigger] words_of(b)[i] == ws[i] by {
            if i < init.len() {
                assert(b.subrange(4 * i, 4 * i + 4) =~= words_le(init).subrange(4 * i, 4 * i + 4));
                assert(words_of(words_le(init))[i] == init[i]);
            } else {
                assert(b.subrange(4 * i, 4 * i + 4) =~= le(ws.last() as nat, 4));
            }
        }
        assert(words_of(b) =~= ws);
    } else {
        assert(words_of(words_le(ws)) =~= ws);
    }
}

/// Words written one behind the other are the words of both lists.
pub proof fn words_le_concat(a: Seq<u32>, b: Seq<u32>)
    ensures
        words_le(a + b) == words_le(a) + words_le(b),
    decreases b.len(),
{
    if b.len() == 0 {
        assert(a + b =~= a);
        assert(words_le(a) + words_le(b) =~= words_le(a));
    } else {
        words_le_concat(a, b.drop_last());
        assert((a + b).drop_last() =~= a + b.drop_last());
        assert(words_le(a + b) =~= words_le(a) + words_le(b));
    }
}

pub fn push_words(out: &mut Vec<u8>, ws: &[u32])
    ensures
        final(out)@ == old(out)@ + words_le(ws@),
{
    let ghost before = out@;
    let mut i: usize = 0;
    assert(before + words_le(ws@.take(0)) =~= before);
    while i < ws.len()
        invariant
            i <= ws@.len(),
            out@ == before + words_le(ws@.take(i as int)),
        decreases ws@.len() - i,
    {
        push_u32(out, ws[i]);
        proof {
            let next = ws@.take(i + 1);
            assert(next.drop_last() =~= ws@.take(i as int));
            assert(out@ =~= before + words_le(next));
        }
        i += 1;
    }
    assert(ws@.take(ws@.len() as int) =~= ws@);
}

/// The words stored in `b` from `at` on: `n` of them.
pub fn read_words(b: &[u8], at: usize, n: usize) -> (ws: Vec<u32>)
    requires
        at + 4 * n <= b@.len(),
    ensures
        ws@ == words_of(b@.subrange(at as int, at + 4 * n)),
{
    let ghost part = b@.subrange(at as int, at + 4 * n);
    assert(b@.len() == b.len());
    let mut ws: Vec<u32> = Vec::new();
    let mut i: usize = 0;
    while i < n
        invariant
            i <= n,
            at + 4 * n <= b@.len() <= usize::MAX,
            part == b@.subrange(at as int, at + 4 * n),
            ws@.len() == i,
            forall|j: int| 0 <= j < i ==> #[trigger] ws@[j] == words_of(part)[j],
        decreases n - i,
    {
        let w: u32 = read_u32(b, at + 4 * i);
        proof {
            assert(part.subrange(4 * i, 4 * i + 4) =~= b@.subrange(at + 4 * i, at + 4 * i + 4));
        }
        ws.push(w);
        i += 1;
    }
    assert(ws@ =~= words_of(part));
    ws
}

} // verus!
