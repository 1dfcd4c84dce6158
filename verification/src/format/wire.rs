//! Little-endian numbers in byte buffers.

use vstd::prelude::*;

verus! {

/// The lowest `n` bytes of a number, the lowest first.
pub open spec fn le_bytes(x: nat, n: nat) -> Seq<u8>
    decreases n,
{
    if n == 0 {
        Seq::empty()
    } else {
        seq![(x % 256) as u8] + le_bytes(x / 256, (n - 1) as nat)
    }
}

/// The number that bytes stand for, the lowest first.
pub open spec fn from_le(s: Seq<u8>) -> nat
    decreases s.len(),
{
    if s.len() == 0 {
        0
    } else {
        s[0] as nat + 256 * from_le(s.skip(1))
    }
}

/// How many numbers fit into `n` bytes.
pub open spec fn capacity(n: nat) -> nat
    decreases n,
{
    if n == 0 {
        1
    } else {
        256 * capacity((n - 1) as nat)
    }
}

/// The capacities of the widths in use.
pub proof fn lemma_capacities()
    ensures
        capacity(2) == 0x1_0000,
        capacity(4) == 0x1_0000_0000,
        capacity(8) == 0x1_0000_0000_0000_0000,
{
    reveal_with_fuel(capacity, 9);
}

pub proof fn lemma_le_len(x: nat, n: nat)
    ensures
        le_bytes(x, n).len() == n,
    decreases n,
{
    if n > 0 {
        lemma_le_len(x / 256, (n - 1) as nat);
    }
}

/// Reading gives back what was written.
pub proof fn lemma_le_round_trip(x: nat, n: nat)
    requires
        x < capacity(n),
    ensures
        from_le(le_bytes(x, n)) == x,
    decreases n,
{
    lemma_le_len(x, n);
    if n > 0 {
        lemma_le_round_trip(x / 256, (n - 1) as nat);
        assert(le_bytes(x, n).skip(1) =~= le_bytes(x / 256, (n - 1) as nat));
    }
}

/// Writing gives back what was read.
pub proof fn lemma_from_le_round_trip(s: Seq<u8>)
    ensures
        from_le(s) < capacity(s.len()),
        le_bytes(from_le(s), s.len()) == s,
    decreases s.len(),
{
    if s.len() > 0 {
        let rest = s.skip(1);
        lemma_from_le_round_trip(rest);
        let x = from_le(s);
        assert(x % 256 == s[0] as nat);
        assert(x / 256 == from_le(rest));
        assert(le_bytes(x, s.len()) =~= s);
    } else {
        assert(le_bytes(from_le(s), s.len()) =~= s);
    }
}

/// Appends the lowest `width` bytes of a number.
pub fn push_le(buf: &mut Vec<u8>, x: u64, width: usize)
    ensures
        final(buf)@ == old(buf)@ + le_bytes(x as nat, width as nat),
{
    let mut rest: u64 = x;
    let ghost start = buf@;
    assert(buf@ + le_bytes(x as nat, width as nat) =~= start + le_bytes(x as nat, width as nat));
    for i in 0..width
        invariant
            buf@ + le_bytes(rest as nat, (width - i) as nat) == start + le_bytes(
                x as nat,
                width as nat,
            ),
    {
        let ghost before = buf@;
        let ghost r0 = rest;
        buf.push((rest % 256) as u8);
        rest = rest / 256;
        proof {
            assert(buf@ + le_bytes(rest as nat, (width - i - 1) as nat) =~= before + le_bytes(
                r0 as nat,
                (width - i) as nat,
            ));
        }
    }
    assert(buf@ + le_bytes(rest as nat, 0) =~= buf@);
}

/// The number in the `width` bytes from `at` on.
pub fn get_le(buf: &[u8], at: usize, width: usize) -> (x: u64)
    requires
        at + width <= buf@.len(),
        width <= 8,
    ensures
        x == from_le(buf@.subrange(at as int, at + width)),
{
    let len: usize = buf.len();
    let mut x: u64 = 0;
    let mut i: usize = width;
    proof {
        assert(buf@.subrange(at + width, at + width) =~= Seq::<u8>::empty());
    }
    while i > 0
        invariant
            at + width <= len,
            len == buf@.len(),
            i <= width <= 8,
            x == from_le(buf@.subrange(at + i, at + width)),
        decreases i,
    {
        let ghost tail = buf@.subrange(at + i, at + width);
        let ghost more = buf@.subrange(at + i - 1, at + width);
        proof {
            lemma_from_le_round_trip(tail);
            lemma_small_capacity(tail.len());
            assert(more.skip(1) =~= tail);
        }
        i = i - 1;
        x = x * 256 + buf[at + i] as u64;
    }
    x
}

proof fn lemma_small_capacity(n: nat)
    requires
        n <= 7,
    ensures
        256 * capacity(n) <= 0x1_0000_0000_0000_0000,
{
    reveal_with_fuel(capacity, 8);
}

/// Appends bytes.
pub fn push_bytes(buf: &mut Vec<u8>, data: &[u8])
    ensures
        final(buf)@ == old(buf)@ + data@,
{
    let ghost start = buf@;
    assert(start + data@.take(0) =~= start);
    for i in 0..data.len()
        invariant
            buf@ == start + data@.take(i as int),
    {
        buf.push(data[i]);
        assert(start + data@.take(i + 1) =~= (start + data@.take(i as int)).push(data@[i as int]));
    }
    assert(data@.take(data@.len() as int) =~= data@);
}

/// The lowest byte comes first: each byte counts 256 times what the one before it
/// does.
pub proof fn law_lowest_byte_comes_first(a: Seq<u8>, b: Seq<u8>)
    ensures
        from_le(Seq::empty()) == 0,
        forall|x: u8| #[trigger] from_le(seq![x]) == x,
        from_le(a + b) == from_le(a) + capacity(a.len()) * from_le(b),
        capacity(0) == 1,
        forall|n: nat| #[trigger] capacity(n + 1) == 256 * capacity(n),
    decreases a.len(),
{
    assert forall|x: u8| #[trigger] from_le(seq![x]) == x by {
        assert(seq![x].skip(1) =~= Seq::empty());
        assert(from_le(seq![x].skip(1)) == 0);
    }
    if a.len() == 0 {
        assert(a + b =~= b);
        let (c, y) = (capacity(a.len()), from_le(b));
        assert(c * y == y) by (nonlinear_arith)
            requires
                c == 1,
        ;
    } else {
        law_lowest_byte_comes_first(a.skip(1), b);
        assert((a + b).skip(1) =~= a.skip(1) + b);
        assert((a + b)[0] == a[0]);
        let (x, y, c) = (from_le(a.skip(1)), from_le(b), capacity(a.skip(1).len()));
        assert(256 * (x + c * y) == 256 * x + (256 * c) * y) by (nonlinear_arith);
        assert(capacity(a.len()) == 256 * c);
    }
}

} // verus!
