use vstd::prelude::*;
use crate::errors::DecodeErrorKind;

verus! {

/// The unsigned value of a byte sequence read as a little-endian integer.
pub open spec fn le_val(s: Seq<u8>) -> nat
    decreases s.len(),
{
    if s.len() == 0 {
        0
    } else {
        (s[0] as nat) + 256 * le_val(s.skip(1))
    }
}

/// 256 to the power of `e`.
pub open spec fn pow256(e: nat) -> int
    decreases e,
{
    if e == 0 {
        1
    } else {
        256 * pow256((e - 1) as nat)
    }
}

/// Powers of 256 are positive.
pub proof fn lemma_pow256_pos(e: nat)
    ensures
        pow256(e) >= 1,
    decreases e,
{
    if e > 0 {
        lemma_pow256_pos((e - 1) as nat);
    }
}

/// Powers of 256 grow with the exponent.
pub proof fn lemma_pow256_increases(e1: nat, e2: nat)
    requires
        e1 <= e2,
    ensures
        pow256(e1) <= pow256(e2),
    decreases e2,
{
    if e1 < e2 {
        lemma_pow256_increases(e1, (e2 - 1) as nat);
        lemma_pow256_pos((e2 - 1) as nat);
    }
}

/// A little-endian value fits below 256 to the power of its byte count.
pub proof fn lemma_le_val_bound(s: Seq<u8>)
    ensures
        le_val(s) < pow256(s.len() as nat),
    decreases s.len(),
{
    if s.len() == 0 {
    } else {
        lemma_le_val_bound(s.skip(1));
    }
}

/// A forward-only cursor over an in-memory byte buffer: the bounded-reader
/// abstraction the bundle decoder consumes. Once constructed it exposes
/// exactly the bytes it was given, in order, and reports truncation when a
/// read asks for more than what is left.
pub struct ByteReader {
    data: Vec<u8>,
    pos: usize,
}

impl ByteReader {
    /// The bytes not yet consumed.
    pub closed spec fn remaining(&self) -> Seq<u8> {
        self.data@.skip(self.pos as int)
    }

    /// The cursor never points past the end of the buffer.
    pub closed spec fn wf(&self) -> bool {
        self.pos <= self.data@.len()
    }

    /// Wrap a byte buffer in a reader positioned at its start.
    pub fn new(data: Vec<u8>) -> (r: Self)
        ensures
            r.wf(),
            r.remaining() == data@,
    {
        let r = ByteReader { data, pos: 0 };
        proof {
            assert(r.remaining() =~= r.data@);
        }
        r
    }

    /// How many bytes are left to read.
    pub fn remaining_len(&self) -> (n: usize)
        requires
            self.wf(),
        ensures
            n == self.remaining().len(),
    {
        self.data.len() - self.pos
    }

    /// Read exactly `n` bytes, or report truncation without consuming anything.
    pub fn read_exact(&mut self, n: usize) -> (r: Result<Vec<u8>, DecodeErrorKind>)
        requires
            old(self).wf(),
        ensures
            final(self).wf(),
            match r {
                Ok(v) => {
                    &&& old(self).remaining().len() >= n
                    &&& v@ == old(self).remaining().take(n as int)
                    &&& final(self).remaining() == old(self).remaining().skip(n as int)
                },
                Err(e) => {
                    &&& e == DecodeErrorKind::TruncatedInput
                    &&& old(self).remaining().len() < n
                    &&& *final(self) == *old(self)
                },
            },
    {
        let dlen: usize = self.data.len();
        if dlen - self.pos < n {
            return Err(DecodeErrorKind::TruncatedInput);
        }
        let mut out: Vec<u8> = Vec::new();
        let mut i: usize = 0;
        while i < n
            invariant
                self == old(self),
                self.wf(),
                i <= n,
                dlen == self.data@.len(),
                n <= dlen - self.pos,
                out@ == self.data@.subrange(self.pos as int, self.pos + i),
            decreases n - i,
        {
            out.push(self.data[self.pos + i]);
            i += 1;
            proof {
                assert(out@ =~= self.data@.subrange(self.pos as int, self.pos + i));
            }
        }
        proof {
            assert(out@ =~= old(self).remaining().take(n as int));
        }
        self.pos = self.pos + n;
        proof {
            assert(self.remaining() =~= old(self).remaining().skip(n as int));
        }
        Ok(out)
    }

    /// Read the single next byte, or report truncation.
    pub fn read_u8(&mut self) -> (r: Result<u8, DecodeErrorKind>)
        requires
            old(self).wf(),
        ensures
            final(self).wf(),
            match r {
                Ok(b) => {
                    &&& old(self).remaining().len() >= 1
                    &&& b == old(self).remaining()[0]
                    &&& final(self).remaining() == old(self).remaining().skip(1)
                },
                Err(e) => {
                    &&& e == DecodeErrorKind::TruncatedInput
                    &&& old(self).remaining().len() == 0
                    &&& *final(self) == *old(self)
                },
            },
    {
        if self.pos < self.data.len() {
            let b = self.data[self.pos];
            self.pos = self.pos + 1;
            proof {
                assert(self.remaining() =~= old(self).remaining().skip(1));
            }
            Ok(b)
        } else {
            Err(DecodeErrorKind::TruncatedInput)
        }
    }

    /// Read `n` bytes and interpret them as a little-endian unsigned integer.
    pub fn read_le_uint(&mut self, n: usize) -> (r: Result<u128, DecodeErrorKind>)
        requires
            old(self).wf(),
            1 <= n <= 16,
        ensures
            final(self).wf(),
            match r {
                Ok(v) => {
                    &&& old(self).remaining().len() >= n
                    &&& v == le_val(old(self).remaining().take(n as int))
                    &&& final(self).remaining() == old(self).remaining().skip(n as int)
                },
                Err(e) => {
                    &&& e == DecodeErrorKind::TruncatedInput
                    &&& old(self).remaining().len() < n
                    &&& *final(self) == *old(self)
                },
            },
    {
        let bytes = match self.read_exact(n) {
            Ok(v) => v,
            Err(e) => {
                return Err(e);
            },
        };
        let ghost full = bytes@;
        let mut val: u128 = 0;
        let mut j: usize = n;
        proof {
            assert(full.skip(n as int) =~= Seq::<u8>::empty());
        }
        while j > 0
            invariant
                j <= n,
                n <= 16,
                bytes@ == full,
                full.len() == n,
                val == le_val(full.skip(j as int)),
            decreases j,
        {
            j = j - 1;
            proof {
                lemma_le_val_bound(full.skip(j as int));
                lemma_le_val_bound(full.skip(j + 1));
                reveal_with_fuel(pow256, 17);
                assert(pow256(16) == 0x100000000000000000000000000000000);
                lemma_pow256_increases(full.skip(j as int).len() as nat, 16);
                assert(full.skip(j as int).skip(1) =~= full.skip(j + 1));
                assert(le_val(full.skip(j as int)) == (full[j as int] as nat) + 256 * le_val(
                    full.skip(j + 1),
                ));
            }
            val = val * 256 + (bytes[j] as u128);
        }
        proof {
            assert(full.skip(0) =~= full);
        }
        Ok(val)
    }

    /// Read every byte that is left; the reader is exhausted afterwards.
    pub fn read_to_end(&mut self) -> (r: Vec<u8>)
        requires
            old(self).wf(),
        ensures
            final(self).wf(),
            r@ == old(self).remaining(),
            final(self).remaining() == Seq::<u8>::empty(),
    {
        let n = self.data.len() - self.pos;
        let r = match self.read_exact(n) {
            Ok(v) => v,
            Err(_) => Vec::new(),
        };
        proof {
            assert(r@ =~= old(self).remaining());
            assert(self.remaining() =~= Seq::<u8>::empty());
        }
        r
    }
}

} // verus!
