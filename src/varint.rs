use vstd::prelude::*;

use crate::Error;

verus! {

/// The bytes that encode `x`: seven bits per byte, least significant first, the
/// last byte marked by its high bit. Each byte after the first stands for the
/// remaining value less one, so that every integer has exactly one encoding.
pub open spec fn var_enc(x: nat) -> Seq<u8>
    decreases x,
{
    if x < 128 {
        seq![(x + 128) as u8]
    } else {
        seq![(x % 128) as u8] + var_enc((x / 128 - 1) as nat)
    }
}

/// The integer encoded at the start of `s` and the number of bytes it takes, or
/// `None` where `s` ends before a byte with the high bit set.
pub open spec fn var_dec(s: Seq<u8>) -> Option<(nat, nat)>
    decreases s.len(),
{
    if s.len() == 0 {
        None
    } else if s[0] >= 128 {
        Some(((s[0] - 128) as nat, 1))
    } else {
        match var_dec(s.drop_first()) {
            None => None,
            Some((v, n)) => Some(((s[0] + 128 * (v + 1)) as nat, n + 1)),
        }
    }
}

/// Reading an integer at the start of `s` into a machine word: it fails with
/// `TruncatedInput` where no terminal byte comes, and with `InvalidPatch` where the
/// value does not fit.
pub open spec fn var_read(s: Seq<u8>) -> Result<(usize, nat), Error> {
    match var_dec(s) {
        None => Err(Error::TruncatedInput),
        Some((v, n)) => if v <= usize::MAX {
            Ok((v as usize, n))
        } else {
            Err(Error::InvalidPatch)
        },
    }
}

/// An integer read takes at least one byte and no more than there are.
pub proof fn lemma_var_dec_len(s: Seq<u8>)
    ensures
        var_dec(s) matches Some((v, n)) ==> 1 <= n <= s.len(),
    decreases s.len(),
{
    if s.len() > 0 && s[0] < 128 {
        lemma_var_dec_len(s.drop_first());
    }
}

/// Decoding the encoding of `x`, whatever follows it, gives back `x` and the
/// length of the encoding.
pub proof fn lemma_var_round_trip(x: nat, rest: Seq<u8>)
    ensures
        var_dec(var_enc(x) + rest) == Some((x, var_enc(x).len())),
        var_enc(x).len() >= 1,
    decreases x,
{
    let s = var_enc(x) + rest;
    if x < 128 {
        assert(s[0] == (x + 128) as u8);
    } else {
        let y = (x / 128 - 1) as nat;
        lemma_var_round_trip(y, rest);
        assert(s.drop_first() =~= var_enc(y) + rest);
        assert(s[0] == (x % 128) as u8);
        assert((x % 128) + 128 * (y + 1) == x);
    }
}

/// Every value that fits a machine word reads back from its encoding.
pub proof fn lemma_var_read_enc(x: usize, rest: Seq<u8>)
    ensures
        var_read(var_enc(x as nat) + rest) == Ok::<(usize, nat), Error>((x, var_enc(x as nat).len())),
{
    lemma_var_round_trip(x as nat, rest);
}

/// The arithmetic of one continuation byte: the value still to come is scaled
/// by the next power of 128, and no partial sum exceeds the total.
proof fn lemma_step_value(value: int, shift: int, x: int, v: int)
    requires
        0 <= x < 128,
        shift >= 1,
        v >= 0,
    ensures
        value + shift * (x + 128 * (v + 1)) == (value + x * shift + shift * 128) + (shift * 128)
            * v,
        shift * (x + 128 * (v + 1)) >= x * shift,
        shift * (x + 128 * (v + 1)) >= shift * 128,
        (shift * 128) * v >= 0,
{
    assert(value + shift * (x + 128 * (v + 1)) == (value + x * shift + shift * 128) + (shift
        * 128) * v) by (nonlinear_arith);
    assert(shift * (x + 128 * (v + 1)) >= x * shift) by (nonlinear_arith)
        requires
            shift >= 1,
            v >= 0,
            x >= 0,
    ;
    assert(shift * (x + 128 * (v + 1)) >= shift * 128) by (nonlinear_arith)
        requires
            shift >= 1,
            v >= 0,
            x >= 0,
    ;
    assert((shift * 128) * v >= 0) by (nonlinear_arith)
        requires
            shift >= 1,
            v >= 0,
    ;
}

/// Reading of variable-length integers from a byte buffer.
pub trait ReadVarExt {
    /// Reads the integer encoded at `pos`, giving it and the position after it.
    fn read_var_int(&self, pos: usize) -> Result<(usize, usize), Error>;
}

/// Reads the integer encoded at `pos` of `data`, giving it and the position
/// after it.
pub fn read_var(data: &[u8], pos: usize) -> (r: Result<(usize, usize), Error>)
    ensures
        pos <= data@.len() ==> match var_read(data@.subrange(pos as int, data@.len() as int)) {
            Ok((v, n)) => r matches Ok((v2, p)) && v2 == v && p == pos + n,
            Err(e) => r == Err::<(usize, usize), Error>(e),
        },
        pos > data@.len() ==> r == Err::<(usize, usize), Error>(Error::TruncatedInput),
{
    if pos > data.len() {
        return Err(Error::TruncatedInput);
    }
    let ghost s = data@.subrange(pos as int, data@.len() as int);
    let mut i: usize = pos;
    let mut value: usize = 0;
    let mut shift: usize = 1;
    let mut overflow = false;
    while i < data.len()
        invariant
            pos <= i <= data@.len(),
            s == data@.subrange(pos as int, data@.len() as int),
            shift >= 1,
            match var_dec(data@.subrange(i as int, data@.len() as int)) {
                None => var_dec(s) is None,
                Some((vr, nr)) => var_dec(s) is Some && var_dec(s).unwrap().1 == nr + (i
                    - pos) && (if overflow {
                    var_dec(s).unwrap().0 > usize::MAX
                } else {
                    var_dec(s).unwrap().0 == value + shift * vr
                }),
            },
        decreases data@.len() - i,
    {
        let x = data[i];
        let ghost rest = data@.subrange(i as int, data@.len() as int);
        assert(rest[0] == x);
        assert(rest.drop_first() =~= data@.subrange(i + 1, data@.len() as int));
        if x >= 128 {
            if overflow {
                return Err(Error::InvalidPatch);
            }
            let d = (x - 128) as usize;
            let r = match d.checked_mul(shift) {
                None => None,
                Some(p) => value.checked_add(p),
            };
            assert(d * shift == shift * d) by (nonlinear_arith);
            return match r {
                None => Err(Error::InvalidPatch),
                Some(v) => Ok((v, i + 1)),
            };
        }
        let ghost old_value = value;
        let ghost old_shift = shift;
        proof {
            match var_dec(data@.subrange(i + 1, data@.len() as int)) {
                None => {},
                Some((v2, n2)) => {
                    lemma_step_value(value as int, shift as int, x as int, v2 as int);
                },
            }
        }
        if !overflow {
            let step = match (x as usize).checked_mul(shift) {
                None => None,
                Some(p) => match value.checked_add(p) {
                    None => None,
                    Some(v1) => match shift.checked_mul(128) {
                        None => None,
                        Some(s1) => match v1.checked_add(s1) {
                            None => None,
                            Some(v2) => Some((v2, s1)),
                        },
                    },
                },
            };
            match step {
                None => {
                    overflow = true;
                },
                Some((v2, s1)) => {
                    value = v2;
                    shift = s1;
                },
            }
        }
        i = i + 1;
    }
    assert(data@.subrange(i as int, data@.len() as int).len() == 0);
    Err(Error::TruncatedInput)
}

impl ReadVarExt for [u8] {
    fn read_var_int(&self, pos: usize) -> (r: Result<(usize, usize), Error>)
        ensures
            pos <= self@.len() ==> match var_read(self@.subrange(pos as int, self@.len() as int)) {
                Ok((v, n)) => r matches Ok((v2, p)) && v2 == v && p == pos + n,
                Err(e) => r == Err::<(usize, usize), Error>(e),
            },
            pos > self@.len() ==> r == Err::<(usize, usize), Error>(Error::TruncatedInput),
    {
        read_var(self, pos)
    }
}

/// Writing of variable-length integers to a byte buffer.
pub trait WriteVarExt {
    /// Appends the encoding of `value`.
    fn write_var_int(&mut self, value: usize);
}

impl WriteVarExt for Vec<u8> {
    fn write_var_int(&mut self, value: usize)
        ensures
            final(self)@ == old(self)@ + var_enc(value as nat),
    {
        let mut v: usize = value;
        loop
            invariant
                old(self)@ + var_enc(value as nat) == self@ + var_enc(v as nat),
            decreases v,
        {
            let x = (v & 0x7f) as u8;
            let rest = v >> 7;
            assert(v & 0x7f == v % 128 && v >> 7 == v / 128) by (bit_vector);
            if rest == 0 {
                assert(0x80u8 | x == x + 128) by (bit_vector)
                    requires
                        x < 128,
                ;
                self.push(0x80 | x);
                assert(self@ =~= old(self)@ + var_enc(value as nat));
                return;
            }
            let ghost before = self@;
            assert(var_enc(v as nat) == seq![x] + var_enc((rest - 1) as nat));
            self.push(x);
            v = rest - 1;
            assert(self@ + var_enc(v as nat) =~= before + (seq![x] + var_enc(v as nat)));
        }
    }
}

} // verus!
