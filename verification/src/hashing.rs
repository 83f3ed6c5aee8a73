use vstd::prelude::*;

verus! {

/// Starting state of the running 64-bit FNV-1a digest.
pub const FNV_OFFSET_BASIS: u64 = 0xcbf29ce484222325;

/// Multiplier folded in after each byte of input.
pub const FNV_PRIME: u64 = 0x100000001b3;

/// One step of the running digest: fold one byte into the state.
pub open spec fn fnv1a_step(h: u64, b: u8) -> u64 {
    (h ^ (b as u64)).wrapping_mul(FNV_PRIME)
}

/// The digest of a whole byte sequence: the step function folded over the
/// bytes in order, starting from the offset basis.
pub open spec fn fnv1a(s: Seq<u8>) -> u64
    decreases s.len(),
{
    if s.len() == 0 {
        FNV_OFFSET_BASIS
    } else {
        fnv1a_step(fnv1a(s.drop_last()), s.last())
    }
}

/// A running content digest fed in bounded-size chunks, so a large file
/// never has to sit in memory whole. The ghost `fed` records every byte
/// folded in so far; the state is always the digest of exactly those
/// bytes, so feeding a file chunk by chunk yields the digest of the whole
/// content, and a digest is never produced from a truncated prefix by
/// mistake: the contract says precisely which bytes it covers.
pub struct StreamHasher {
    state: u64,
    fed: Ghost<Seq<u8>>,
}

impl StreamHasher {
    /// The bytes folded in so far.
    pub closed spec fn bytes_fed(&self) -> Seq<u8> {
        self.fed@
    }

    /// The state is the digest of the bytes fed.
    pub closed spec fn wf(&self) -> bool {
        self.state == fnv1a(self.fed@)
    }

    /// A fresh hasher: nothing fed yet.
    pub fn new() -> (h: StreamHasher)
        ensures
            h.wf(),
            h.bytes_fed() == Seq::<u8>::empty(),
    {
        let h = StreamHasher { state: FNV_OFFSET_BASIS, fed: Ghost(Seq::empty()) };
        h
    }

    /// Folds one chunk into the running digest.
    pub fn update(&mut self, chunk: &Vec<u8>)
        requires
            old(self).wf(),
        ensures
            final(self).wf(),
            final(self).bytes_fed() == old(self).bytes_fed() + chunk@,
    {
        let ghost prefix = self.fed@;
        let mut i: usize = 0;
        while i < chunk.len()
            invariant
                0 <= i <= chunk.len(),
                self.fed@ == prefix + chunk@.take(i as int),
                self.wf(),
            decreases chunk.len() - i,
        {
            let b = chunk[i];
            self.state = (self.state ^ (b as u64)).wrapping_mul(FNV_PRIME);
            proof {
                let next = prefix + chunk@.take(i + 1);
                assert(next.drop_last() =~= prefix + chunk@.take(i as int));
                assert(next.last() == chunk@[i as int]);
                self.fed@ = next;
            }
            i = i + 1;
        }
        proof {
            assert(prefix + chunk@.take(chunk.len() as int) =~= prefix + chunk@);
        }
    }

    /// The digest of everything fed so far. Reading it does not restart
    /// or consume the hasher.
    pub fn digest(&self) -> (d: u64)
        requires
            self.wf(),
        ensures
            d == fnv1a(self.bytes_fed()),
    {
        self.state
    }
}

/// The digest of a byte vector in one call.
pub fn hash_bytes(data: &Vec<u8>) -> (d: u64)
    ensures
        d == fnv1a(data@),
{
    let mut h = StreamHasher::new();
    h.update(data);
    proof {
        assert(Seq::<u8>::empty() + data@ =~= data@);
    }
    h.digest()
}

/// The ASCII code of one hexadecimal digit.
pub open spec fn hex_digit_of(n: u8) -> u8
    recommends
        n < 16,
{
    if n < 10 {
        (48 + n) as u8
    } else {
        (87 + n) as u8
    }
}

/// Nibble `i` of a digest, most significant first.
pub open spec fn spec_nibble(d: u64, i: int) -> u8
    recommends
        0 <= i < 16,
{
    ((d >> (((15 - i) * 4) as u64)) & 0xf) as u8
}

/// The sixteen-character lowercase hexadecimal spelling of a digest.
pub open spec fn spec_hex_of(d: u64) -> Seq<u8> {
    Seq::new(16, |i: int| hex_digit_of(spec_nibble(d, i)))
}

/// Renders a digest as sixteen lowercase hexadecimal ASCII bytes, most
/// significant nibble first. Never empty.
pub fn digest_hex(d: u64) -> (r: Vec<u8>)
    ensures
        r@ == spec_hex_of(d),
        r@.len() == 16,
{
    let mut out: Vec<u8> = Vec::new();
    let mut i: usize = 0;
    proof {
        assert(out@ =~= spec_hex_of(d).take(0));
    }
    while i < 16
        invariant
            0 <= i <= 16,
            out@ == spec_hex_of(d).take(i as int),
        decreases 16 - i,
    {
        let sh: u64 = ((15 - i) as u64) * 4;
        let nib64: u64 = (d >> sh) & 0xf;
        proof {
            assert((d >> sh) & 0xf < 16) by (bit_vector);
            assert(sh == ((15 - (i as int)) * 4) as u64);
        }
        let nib: u8 = nib64 as u8;
        let c: u8 = if nib < 10 {
            48 + nib
        } else {
            87 + nib
        };
        out.push(c);
        proof {
            assert(nib == spec_nibble(d, i as int));
            assert(c == hex_digit_of(spec_nibble(d, i as int)));
            assert(out@ =~= spec_hex_of(d).take(i + 1));
        }
        i = i + 1;
    }
    proof {
        assert(spec_hex_of(d).take(16) =~= spec_hex_of(d));
    }
    out
}

} // verus!
