//! Reading bytes front to back, and numbers of variable width.

use vstd::prelude::*;

verus! {

/// The number that the bytes make up, the most significant one first.
pub open spec fn big_endian(bytes: Seq<u8>) -> nat
    decreases bytes.len(),
{
    if bytes.len() == 0 {
        0
    } else {
        256 * big_endian(bytes.drop_last()) + bytes.last() as nat
    }
}

/// The `k` least significant bytes of `n`, the most significant one first.
pub open spec fn big_endian_bytes(n: nat, k: nat) -> Seq<u8>
    decreases k,
{
    if k == 0 {
        Seq::empty()
    } else {
        big_endian_bytes(n / 256, (k - 1) as nat).push((n % 256) as u8)
    }
}

/// How many bytes follow a first byte.
pub open spec fn extra_bytes(first: u8) -> nat {
    if first <= 0xfc {
        0
    } else if first == 0xfd {
        2
    } else if first == 0xfe {
        4
    } else {
        8
    }
}

/// The number at the front of `s` and what is behind it, unless `s` ends too early.
///
/// A first byte of up to 252 is the number itself. Otherwise it says that two, four or eight
/// bytes hold the number. They need not be the fewest that can.
pub open spec fn varint(s: Seq<u8>) -> Option<(u64, Seq<u8>)> {
    if s.len() == 0 || s.len() < 1 + extra_bytes(s[0]) {
        None
    } else if extra_bytes(s[0]) == 0 {
        Some((s[0] as u64, s.skip(1)))
    } else {
        let w = extra_bytes(s[0]) as int;
        Some((big_endian(s.subrange(1, 1 + w)) as u64, s.skip(1 + w)))
    }
}

/// `n` in the fewest bytes.
pub open spec fn varint_bytes(n: u64) -> Seq<u8> {
    if n <= 0xfc {
        seq![n as u8]
    } else if n <= 0xffff {
        seq![0xfdu8] + big_endian_bytes(n as nat, 2)
    } else if n <= 0xffff_ffff {
        seq![0xfeu8] + big_endian_bytes(n as nat, 4)
    } else {
        seq![0xffu8] + big_endian_bytes(n as nat, 8)
    }
}

proof fn lemma_big_endian_len(n: nat, k: nat)
    ensures
        big_endian_bytes(n, k).len() == k,
    decreases k,
{
    if k > 0 {
        lemma_big_endian_len(n / 256, (k - 1) as nat);
    }
}

/// The bytes of a number make it up again if there are enough of them.
proof fn lemma_big_endian_back(n: nat, k: nat)
    requires
        k <= 8,
        k == 0 ==> n == 0,
        k == 1 ==> n < 0x100,
        k == 2 ==> n < 0x1_0000,
        k == 3 ==> n < 0x100_0000,
        k == 4 ==> n < 0x1_0000_0000,
        k == 5 ==> n < 0x100_0000_0000,
        k == 6 ==> n < 0x1_0000_0000_0000,
        k == 7 ==> n < 0x100_0000_0000_0000,
        k == 8 ==> n < 0x1_0000_0000_0000_0000,
    ensures
        big_endian(big_endian_bytes(n, k)) == n,
        big_endian_bytes(n, k).len() == k,
    decreases k,
{
    if k > 0 {
        let rest = big_endian_bytes(n / 256, (k - 1) as nat);
        lemma_big_endian_back(n / 256, (k - 1) as nat);
        assert(big_endian_bytes(n, k).drop_last() =~= rest);
    }
}

/// A number that was written is read again, and nothing behind it is touched.
pub proof fn law_varint_round_trip(n: u64, rest: Seq<u8>)
    ensures
        varint(varint_bytes(n) + rest) == Some((n, rest)),
{
    let s = varint_bytes(n) + rest;
    if n <= 0xfc {
        assert(s.skip(1) =~= rest);
    } else {
        let w: nat = if n <= 0xffff {
            2
        } else if n <= 0xffff_ffff {
            4
        } else {
            8
        };
        lemma_big_endian_back(n as nat, w);
        assert(s.subrange(1, 1 + w as int) =~= big_endian_bytes(n as nat, w));
        assert(s.skip(1 + w as int) =~= rest);
    }
}

/// How long a number is when written.
pub proof fn lemma_varint_len(n: u64)
    ensures
        1 <= varint_bytes(n).len() <= 9,
        n <= 0xfc ==> varint_bytes(n).len() == 1,
        n <= 0xffff ==> varint_bytes(n).len() <= 3,
        n <= 0xffff_ffff ==> varint_bytes(n).len() <= 5,
{
    lemma_big_endian_len(n as nat, 2);
    lemma_big_endian_len(n as nat, 4);
    lemma_big_endian_len(n as nat, 8);
}

/// Bytes that are read front to back.
pub struct Reader<'a> {
    /// All the bytes.
    pub bytes: &'a [u8],
    /// How many of them have been read.
    pub pos: usize,
}

impl<'a> View for Reader<'a> {
    type V = Seq<u8>;

    /// The bytes that have not been read yet.
    open spec fn view(&self) -> Seq<u8> {
        self.bytes@.skip(self.pos as int)
    }
}

impl<'a> Reader<'a> {
    /// No more has been read than there is.
    pub open spec fn wf(&self) -> bool {
        self.pos <= self.bytes@.len()
    }

    /// Starts at the first byte.
    pub fn new(bytes: &'a [u8]) -> (r: Self)
        ensures
            r.wf(),
            r@ == bytes@,
    {
        let r = Reader { bytes, pos: 0 };
        assert(r@ =~= bytes@);
        r
    }

    /// Reads `n` bytes, or nothing if there are not as many.
    pub fn read_exact(&mut self, n: u64) -> (read: Option<Vec<u8>>)
        requires
            old(self).wf(),
        ensures
            final(self).wf(),
            match read {
                Some(read) => n <= old(self)@.len() && read@ == old(self)@.take(n as int)
                    && final(self)@ == old(self)@.skip(n as int),
                None => n > old(self)@.len() && *final(self) == *old(self),
            },
    {
        let left: usize = self.bytes.len() - self.pos;
        if n > left as u64 {
            return None;
        }
        let end: usize = self.pos + n as usize;
        let mut read: Vec<u8> = Vec::new();
        let mut i: usize = self.pos;
        let ghost all = self.bytes@;
        let ghost start = self.pos as int;
        while i < end
            invariant
                0 <= start <= i <= end <= all.len(),
                all == self.bytes@,
                read@ == all.subrange(start, i as int),
            decreases end - i,
        {
            read.push(self.bytes[i]);
            i = i + 1;
            assert(read@ =~= all.subrange(start, i as int));
        }
        self.pos = end;
        assert(read@ =~= old(self)@.take(n as int));
        assert(self@ =~= old(self)@.skip(n as int));
        Some(read)
    }

    /// Reads one byte.
    fn read_byte(&mut self) -> (read: Option<u8>)
        requires
            old(self).wf(),
        ensures
            final(self).wf(),
            match read {
                Some(b) => old(self)@.len() > 0 && b == old(self)@[0] && final(self)@ == old(
                    self,
                )@.skip(1),
                None => old(self)@.len() == 0 && *final(self) == *old(self),
            },
    {
        if self.pos < self.bytes.len() {
            let b: u8 = self.bytes[self.pos];
            self.pos = self.pos + 1;
            assert(self@ =~= old(self)@.skip(1));
            Some(b)
        } else {
            None
        }
    }
}

/// What is said where the bytes end within a number.
pub open spec fn read_error() -> Seq<char> {
    "Read error: failed to fill whole buffer"@
}

/// Reads a number.
pub fn read_varint(r: &mut Reader) -> (read: Result<u64, String>)
    requires
        old(r).wf(),
    ensures
        final(r).wf(),
        match read {
            Ok(n) => varint(old(r)@) == Some((n, final(r)@)),
            Err(e) => varint(old(r)@) is None && e@ == read_error(),
        },
{
    let ghost s = r@;
    let first: u8 = match r.read_byte() {
        Some(first) => first,
        None => {
            return Err("Read error: failed to fill whole buffer".to_string());
        },
    };
    if first <= 0xfc {
        return Ok(first as u64);
    }
    let width: u64 = if first == 0xfd {
        2
    } else if first == 0xfe {
        4
    } else {
        8
    };
    let bytes: Vec<u8> = match r.read_exact(width) {
        Some(bytes) => bytes,
        None => {
            return Err("Read error: failed to fill whole buffer".to_string());
        },
    };
    assert(bytes@ =~= s.subrange(1, 1 + width));
    assert(r@ =~= s.skip(1 + width));
    Ok(from_big_endian(&bytes))
}

/// The number that up to eight bytes make up, the most significant one first.
fn from_big_endian(bytes: &Vec<u8>) -> (n: u64)
    requires
        bytes@.len() <= 8,
    ensures
        n == big_endian(bytes@),
{
    let mut n: u64 = 0;
    let mut i: usize = 0;
    while i < bytes.len()
        invariant
            i <= bytes@.len() <= 8,
            n == big_endian(bytes@.take(i as int)),
            i == 0 ==> n == 0,
            i == 1 ==> n < 0x100,
            i == 2 ==> n < 0x1_0000,
            i == 3 ==> n < 0x100_0000,
            i == 4 ==> n < 0x1_0000_0000,
            i == 5 ==> n < 0x100_0000_0000,
            i == 6 ==> n < 0x1_0000_0000_0000,
            i == 7 ==> n < 0x100_0000_0000_0000,
        decreases bytes@.len() - i,
    {
        assert(bytes@.take(i + 1).drop_last() =~= bytes@.take(i as int));
        n = n * 256 + bytes[i] as u64;
        i = i + 1;
    }
    assert(bytes@.take(i as int) =~= bytes@);
    n
}

/// Writes a number behind `w`.
pub fn write_varint(w: &mut Vec<u8>, val: u64)
    ensures
        final(w)@ == old(w)@ + varint_bytes(val),
{
    if val <= 0xfc {
        w.push(val as u8);
    } else if val <= 0xffff {
        w.push(0xfd);
        write_big_endian(w, val, 2);
    } else if val <= 0xffff_ffff {
        w.push(0xfe);
        write_big_endian(w, val, 4);
    } else {
        w.push(0xff);
        write_big_endian(w, val, 8);
    }
    assert(w@ =~= old(w)@ + varint_bytes(val));
}

/// Writes the `k` least significant bytes of a number behind `w`.
fn write_big_endian(w: &mut Vec<u8>, val: u64, k: u8)
    ensures
        final(w)@ == old(w)@ + big_endian_bytes(val as nat, k as nat),
    decreases k,
{
    if k > 0 {
        write_big_endian(w, val / 256, k - 1);
        w.push((val % 256) as u8);
    }
    assert(w@ =~= old(w)@ + big_endian_bytes(val as nat, k as nat));
}

/// Which number the bytes begin with. A first byte of up to 252 is the number, 253 says that the
/// next two bytes are it, 254 the next four and 255 the next eight, the most significant one first.
/// There is none where the bytes end earlier.
pub proof fn law_varint_is_read(s: Seq<u8>)
    ensures
        s.len() == 0 ==> varint(s) is None,
        s.len() > 0 && s[0] <= 252 ==> varint(s) == Some((s[0] as u64, s.skip(1))),
        s.len() > 0 && s[0] == 253 ==> (varint(s) is Some <==> s.len() >= 3),
        s.len() >= 3 && s[0] == 253 ==> varint(s) == Some(
            ((0x100 * s[1] + s[2]) as u64, s.skip(3)),
        ),
        s.len() > 0 && s[0] == 254 ==> (varint(s) is Some <==> s.len() >= 5),
        s.len() >= 5 && s[0] == 254 ==> varint(s) == Some(
            ((0x100_0000 * s[1] + 0x1_0000 * s[2] + 0x100 * s[3] + s[4]) as u64, s.skip(5)),
        ),
        s.len() > 0 && s[0] == 255 ==> (varint(s) is Some <==> s.len() >= 9),
        s.len() >= 9 && s[0] == 255 ==> varint(s) == Some(
            (
                (0x100_0000_0000_0000 * s[1] + 0x1_0000_0000_0000 * s[2] + 0x100_0000_0000 * s[3]
                    + 0x1_0000_0000 * s[4] + 0x100_0000 * s[5] + 0x1_0000 * s[6] + 0x100 * s[7]
                    + s[8]) as u64,
                s.skip(9),
            ),
        ),
{
    if s.len() >= 3 && s[0] == 253 {
        lemma_big_endian_two(s.subrange(1, 3));
    }
    if s.len() >= 5 && s[0] == 254 {
        lemma_big_endian_four(s.subrange(1, 5));
    }
    if s.len() >= 9 && s[0] == 255 {
        let t = s.subrange(1, 9);
        lemma_big_endian_four(t.subrange(0, 4));
        lemma_big_endian_last_four(t);
        assert(t.take(4) =~= t.subrange(0, 4));
    }
}

proof fn lemma_big_endian_two(t: Seq<u8>)
    requires
        t.len() == 2,
    ensures
        big_endian(t) == 0x100 * t[0] + t[1],
{
    reveal_with_fuel(big_endian, 3);
    assert(t.drop_last().drop_last() =~= Seq::empty());
}

proof fn lemma_big_endian_four(t: Seq<u8>)
    requires
        t.len() == 4,
    ensures
        big_endian(t) == 0x100_0000 * t[0] + 0x1_0000 * t[1] + 0x100 * t[2] + t[3],
{
    lemma_big_endian_two(t.drop_last().drop_last());
    assert(big_endian(t) == 256 * big_endian(t.drop_last()) + t[3]);
    assert(big_endian(t.drop_last()) == 256 * big_endian(t.drop_last().drop_last()) + t[2]);
}

proof fn lemma_big_endian_last_four(t: Seq<u8>)
    requires
        t.len() == 8,
    ensures
        big_endian(t) == 0x1_0000_0000 * big_endian(t.take(4)) + 0x100_0000 * t[4] + 0x1_0000 * t[5]
            + 0x100 * t[6] + t[7],
{
    let t7 = t.drop_last();
    let t6 = t7.drop_last();
    let t5 = t6.drop_last();
    assert(t5.drop_last() =~= t.take(4));
    assert(big_endian(t) == 256 * big_endian(t7) + t[7]);
    assert(big_endian(t7) == 256 * big_endian(t6) + t[6]);
    assert(big_endian(t6) == 256 * big_endian(t5) + t[5]);
    assert(big_endian(t5) == 256 * big_endian(t.take(4)) + t[4]);
}

/// A number is written in the fewest bytes: one up to 252, three up to 16 bits, five up to 32 bits
/// and otherwise nine, of which the first says how many there are.
pub proof fn law_varint_is_short(n: u64)
    ensures
        n <= 252 ==> varint_bytes(n) == seq![n as u8],
        252 < n <= 0xffff ==> varint_bytes(n).len() == 3 && varint_bytes(n)[0] == 253,
        0xffff < n <= 0xffff_ffff ==> varint_bytes(n).len() == 5 && varint_bytes(n)[0] == 254,
        0xffff_ffff < n ==> varint_bytes(n).len() == 9 && varint_bytes(n)[0] == 255,
{
    lemma_big_endian_len(n as nat, 2);
    lemma_big_endian_len(n as nat, 4);
    lemma_big_endian_len(n as nat, 8);
}

} // verus!
