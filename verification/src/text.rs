//! Length-prefixed strings: a 7-bit variable-length byte count (low groups
//! first, at most five bytes, high bit set on every byte but the last),
//! followed by that many bytes of text.
use crate::error::{DataError, SaveError};
use crate::reader::{
    agree, holds_at, lemma_agree_below, lemma_holds_join, outcome, reads_below, ByteReader, Parsed,
};
use vstd::prelude::*;
use vstd::utf8::{decode_utf8, encode_utf8, valid_utf8};

verus! {

broadcast use {vstd::utf8::encode_utf8_valid_utf8, vstd::utf8::encode_utf8_decode_utf8};

/// The most bytes a length prefix may take.
pub const MAX_PREFIX_BYTES: u8 = 5;

/// `128` to the power `n`.
pub open spec fn pow128(n: nat) -> nat
    decreases n,
{
    if n == 0 {
        1
    } else {
        128 * pow128((n - 1) as nat)
    }
}

/// A length prefix at `p` that may take at most `budget` more bytes.
pub open spec fn sp_varint(d: Seq<u8>, p: int, budget: nat) -> Parsed<nat>
    decreases budget,
{
    if budget == 0 {
        Err((SaveError::InvalidData(DataError::StringLength), p))
    } else if !(0 <= p < d.len()) {
        Err((SaveError::UnexpectedEof, d.len() as int))
    } else if d[p] < 128 {
        Ok((d[p] as nat, p + 1))
    } else {
        match sp_varint(d, p + 1, (budget - 1) as nat) {
            Ok((v, q)) => Ok((((d[p] - 128) + 128 * v) as nat, q)),
            Err(e) => Err(e),
        }
    }
}

/// The bytes of a string at `p`, once its length prefix is read.
pub open spec fn sp_string_bytes(d: Seq<u8>, p: int) -> Parsed<Seq<u8>> {
    match sp_varint(d, p, MAX_PREFIX_BYTES as nat) {
        Ok((len, q)) => if len > i32::MAX {
            Err((SaveError::InvalidData(DataError::StringLength), q))
        } else if q + len > d.len() {
            Err((SaveError::UnexpectedEof, d.len() as int))
        } else {
            Ok((d.subrange(q, q + len), q + len))
        },
        Err(e) => Err(e),
    }
}

/// A string at `p` whose bytes must be valid UTF-8.
pub open spec fn sp_string(d: Seq<u8>, p: int) -> Parsed<Seq<char>> {
    match sp_string_bytes(d, p) {
        Ok((b, q)) => if valid_utf8(b) {
            Ok((decode_utf8(b), q))
        } else {
            Err((SaveError::InvalidData(DataError::InvalidUtf8), q))
        },
        Err(e) => Err(e),
    }
}

/// What `String::from_utf8_lossy` makes of `bytes`: invalid sequences become
/// U+FFFD.
pub uninterp spec fn utf8_lossy(bytes: Seq<u8>) -> Seq<char>;

/// A string at `p` whose invalid UTF-8 sequences are replaced.
pub open spec fn sp_string_lossy(d: Seq<u8>, p: int) -> Parsed<Seq<char>> {
    match sp_string_bytes(d, p) {
        Ok((b, q)) => Ok((utf8_lossy(b), q)),
        Err(e) => Err(e),
    }
}

/// The length prefix of `n`.
pub open spec fn varint_bytes(n: nat) -> Seq<u8>
    decreases n,
{
    if n < 128 {
        seq![n as u8]
    } else {
        seq![(n % 128 + 128) as u8] + varint_bytes(n / 128)
    }
}

/// `s` can be written: its UTF-8 form is at most `i32::MAX` bytes long.
pub open spec fn string_fits(s: Seq<char>) -> bool {
    encode_utf8(s).len() <= i32::MAX
}

/// The encoding of `s`: the length prefix of its UTF-8 form, then that form.
pub open spec fn ser_string(s: Seq<char>) -> Seq<u8> {
    varint_bytes(encode_utf8(s).len()) + encode_utf8(s)
}

/// Calls `std::str::from_utf8`, which succeeds exactly on valid UTF-8 and
/// then gives the text that the bytes encode.
#[verifier::external_body]
fn utf8_str(bytes: &[u8]) -> (res: Option<&str>)
    ensures
        res is Some <==> valid_utf8(bytes@),
        res matches Some(s) ==> s@ == decode_utf8(bytes@),
{
    std::str::from_utf8(bytes).ok()
}

/// Calls `String::from_utf8_lossy`, which gives the text of the bytes with
/// each invalid sequence replaced; on valid UTF-8 that is the decoded text.
#[verifier::external_body]
fn utf8_lossy_string(bytes: &[u8]) -> (res: String)
    ensures
        res@ == utf8_lossy(bytes@),
        valid_utf8(bytes@) ==> res@ == decode_utf8(bytes@),
{
    String::from_utf8_lossy(bytes).into_owned()
}

pub proof fn lemma_pow128_bound(n: nat)
    requires
        n <= 5,
    ensures
        pow128(n) <= 34359738368,
{
    reveal_with_fuel(pow128, 6);
}

pub proof fn lemma_pow128_pos(n: nat)
    ensures
        pow128(n) >= 1,
    decreases n,
{
    if n > 0 {
        lemma_pow128_pos((n - 1) as nat);
    }
}

impl<'a> ByteReader<'a> {
    fn read_varint(&mut self, budget: u8) -> (res: Result<u64, SaveError>)
        requires
            budget <= 5,
        ensures
            final(self).bytes() == old(self).bytes(),
            outcome(
                sp_varint(old(self).bytes(), old(self).at(), budget as nat),
                match res {
                    Ok(v) => Ok(v as nat),
                    Err(e) => Err(e),
                },
                final(self).at(),
            ),
            res matches Ok(v) ==> v < pow128(budget as nat),
        decreases budget,
    {
        if budget == 0 {
            return Err(SaveError::InvalidData(DataError::StringLength));
        }
        let b = match self.read_u8() {
            Ok(b) => b,
            Err(e) => return Err(e),
        };
        if b < 128 {
            proof {
                lemma_pow128_pos((budget - 1) as nat);
            }
            Ok(b as u64)
        } else {
            match self.read_varint(budget - 1) {
                Ok(rest) => {
                    proof {
                        lemma_pow128_bound((budget - 1) as nat);
                    }
                    Ok((b - 128) as u64 + 128 * rest)
                },
                Err(e) => Err(e),
            }
        }
    }

    fn read_string_bytes(&mut self) -> (res: Result<&'a [u8], SaveError>)
        ensures
            final(self).bytes() == old(self).bytes(),
            outcome(
                sp_string_bytes(old(self).bytes(), old(self).at()),
                match res {
                    Ok(b) => Ok(b@),
                    Err(e) => Err(e),
                },
                final(self).at(),
            ),
    {
        let len = match self.read_varint(MAX_PREFIX_BYTES) {
            Ok(len) => len,
            Err(e) => return Err(e),
        };
        if len > 0x7fff_ffff {
            return Err(SaveError::InvalidData(DataError::StringLength));
        }
        let len = len as usize;
        if self.pos > self.data.len() || self.data.len() - self.pos < len {
            self.pos = self.data.len();
            return Err(SaveError::UnexpectedEof);
        }
        let start = self.pos;
        let data: &'a [u8] = self.data;
        self.pos = start + len;
        Ok(&data[start..start + len])
    }

    /// Reads a length-prefixed UTF-8 string.
    pub fn read_string(&mut self) -> (res: Result<String, SaveError>)
        ensures
            final(self).bytes() == old(self).bytes(),
            outcome(
                sp_string(old(self).bytes(), old(self).at()),
                match res {
                    Ok(s) => Ok(s@),
                    Err(e) => Err(e),
                },
                final(self).at(),
            ),
    {
        let bytes = match self.read_string_bytes() {
            Ok(b) => b,
            Err(e) => return Err(e),
        };
        match utf8_str(bytes) {
            Some(s) => Ok(s.to_owned()),
            None => Err(SaveError::InvalidData(DataError::InvalidUtf8)),
        }
    }

    /// Reads a length-prefixed string, replacing invalid UTF-8.
    pub fn read_string_lossy(&mut self) -> (res: Result<String, SaveError>)
        ensures
            final(self).bytes() == old(self).bytes(),
            outcome(
                sp_string_lossy(old(self).bytes(), old(self).at()),
                match res {
                    Ok(s) => Ok(s@),
                    Err(e) => Err(e),
                },
                final(self).at(),
            ),
    {
        match self.read_string_bytes() {
            Ok(b) => Ok(utf8_lossy_string(b)),
            Err(e) => Err(e),
        }
    }
}

/// Appends the length prefix of `n`.
fn push_varint(out: &mut Vec<u8>, n: u32)
    ensures
        final(out)@ == old(out)@ + varint_bytes(n as nat),
{
    let mut m: u32 = n;
    while m >= 128
        invariant
            out@ + varint_bytes(m as nat) == old(out)@ + varint_bytes(n as nat),
        decreases m,
    {
        let ghost before = out@;
        out.push((m % 128 + 128) as u8);
        assert(varint_bytes(m as nat) == seq![(m % 128 + 128) as u8] + varint_bytes((m / 128) as nat));
        assert(before + varint_bytes(m as nat) =~= out@ + varint_bytes((m / 128) as nat));
        m = m / 128;
    }
    out.push(m as u8);
    assert(varint_bytes(m as nat) =~= seq![m as u8]);
}

/// Appends the length-prefixed UTF-8 form of `s`; a string whose UTF-8 form
/// is longer than `i32::MAX` bytes cannot be written.
pub fn write_string(out: &mut Vec<u8>, s: &str) -> (res: Result<(), SaveError>)
    ensures
        string_fits(s@) ==> res is Ok && final(out)@ == old(out)@ + ser_string(s@),
        !string_fits(s@) ==> res == Err::<(), SaveError>(SaveError::InvalidData(DataError::StringTooLong))
            && final(out)@ == old(out)@,
{
    let bytes = s.as_bytes();
    let len = bytes.len();
    if len > 0x7fff_ffff {
        return Err(SaveError::InvalidData(DataError::StringTooLong));
    }
    push_varint(out, len as u32);
    let ghost mid = out@;
    let mut i: usize = 0;
    while i < len
        invariant
            i <= len,
            len == bytes@.len(),
            out@ == mid + bytes@.subrange(0, i as int),
        decreases len - i,
    {
        out.push(bytes[i]);
        assert(out@ =~= mid + bytes@.subrange(0, i + 1));
        i = i + 1;
    }
    assert(bytes@.subrange(0, len as int) =~= bytes@);
    Ok(())
}

/// A length prefix reads back as the number it encodes.
pub proof fn lemma_varint_roundtrip(d: Seq<u8>, p: int, n: nat, budget: nat)
    requires
        1 <= budget,
        n < pow128(budget),
        0 <= p,
        p + varint_bytes(n).len() <= d.len(),
        d.subrange(p, p + varint_bytes(n).len()) == varint_bytes(n),
    ensures
        sp_varint(d, p, budget) == Ok::<(nat, int), (SaveError, int)>((n, p + varint_bytes(n).len())),
    decreases n,
{
    let vb = varint_bytes(n);
    assert(d[p] == d.subrange(p, p + vb.len())[0]);
    if n >= 128 {
        let rest = varint_bytes(n / 128);
        assert(vb == seq![(n % 128 + 128) as u8] + rest);
        assert(d.subrange(p + 1, p + 1 + rest.len()) =~= d.subrange(p, p + vb.len()).subrange(
            1,
            vb.len() as int,
        ));
        assert(d.subrange(p, p + vb.len()).subrange(1, vb.len() as int) =~= rest);
        if budget == 1 {
            assert(pow128(1) == 128 * pow128(0));
        }
        assert(pow128(budget) == 128 * pow128((budget - 1) as nat));
        lemma_varint_roundtrip(d, p + 1, n / 128, (budget - 1) as nat);
    }
}

/// A written string reads back as itself, wherever it stands in the input.
pub proof fn lemma_string_roundtrip(d: Seq<u8>, p: int, s: Seq<char>)
    requires
        string_fits(s),
        0 <= p,
        p + ser_string(s).len() <= d.len(),
        d.subrange(p, p + ser_string(s).len()) == ser_string(s),
    ensures
        sp_string(d, p) == Ok::<(Seq<char>, int), (SaveError, int)>((s, p + ser_string(s).len())),
{
    let b = encode_utf8(s);
    let vb = varint_bytes(b.len());
    let all = ser_string(s);
    assert(all == vb + b);
    assert(d.subrange(p, p + vb.len()) =~= all.subrange(0, vb.len() as int));
    assert(all.subrange(0, vb.len() as int) =~= vb);
    lemma_pow128_bound(5);
    reveal_with_fuel(pow128, 6);
    lemma_varint_roundtrip(d, p, b.len(), MAX_PREFIX_BYTES as nat);
    let q = p + vb.len();
    assert(d.subrange(q, q + b.len()) =~= all.subrange(vb.len() as int, all.len() as int));
    assert(all.subrange(vb.len() as int, all.len() as int) =~= b);
}

/// Bytes written with their length prefix read back as themselves,
/// wherever they stand in the input.
pub proof fn lemma_string_bytes_roundtrip(d: Seq<u8>, p: int, b: Seq<u8>)
    requires
        b.len() <= i32::MAX,
        holds_at(d, p, varint_bytes(b.len()) + b),
    ensures
        sp_string_bytes(d, p) == Ok::<(Seq<u8>, int), (SaveError, int)>((b, p + (varint_bytes(b.len()) + b).len())),
        sp_string_lossy(d, p) == Ok::<(Seq<char>, int), (SaveError, int)>(
            (utf8_lossy(b), p + (varint_bytes(b.len()) + b).len()),
        ),
{
    let vb = varint_bytes(b.len());
    let all = vb + b;
    assert(d.subrange(p, p + vb.len()) =~= all.subrange(0, vb.len() as int));
    assert(all.subrange(0, vb.len() as int) =~= vb);
    lemma_pow128_bound(5);
    reveal_with_fuel(pow128, 6);
    lemma_varint_roundtrip(d, p, b.len(), MAX_PREFIX_BYTES as nat);
    let q = p + vb.len();
    assert(d.subrange(q, q + b.len()) =~= all.subrange(vb.len() as int, all.len() as int));
    assert(all.subrange(vb.len() as int, all.len() as int) =~= b);
}

proof fn lemma_varint_advances(d: Seq<u8>, p: int, budget: nat)
    ensures
        sp_varint(d, p, budget) matches Ok((_, q)) ==> 0 <= p < q <= d.len(),
    decreases budget,
{
    if budget > 0 && 0 <= p < d.len() && d[p] >= 128 {
        lemma_varint_advances(d, p + 1, (budget - 1) as nat);
    }
}

/// A string read from bytes can be written back: its UTF-8 form is the
/// bytes it was read from, at most `i32::MAX` of them.
pub proof fn lemma_read_string_fits(d: Seq<u8>, p: int)
    ensures
        sp_string(d, p) matches Ok((s, _)) ==> string_fits(s),
{
    lemma_varint_advances(d, p, MAX_PREFIX_BYTES as nat);
    if let Ok((len, q)) = sp_varint(d, p, MAX_PREFIX_BYTES as nat) {
        if len <= i32::MAX && q + len <= d.len() {
            let b = d.subrange(q, q + len);
            assert(b.len() == len);
            if valid_utf8(b) {
                vstd::utf8::decode_utf8_encode_utf8(b);
            }
        }
    }
}

proof fn lemma_reads_below_varint(d: Seq<u8>, d2: Seq<u8>, p: int, budget: nat)
    ensures
        reads_below(sp_varint(d, p, budget), sp_varint(d2, p, budget), p, d, d2),
    decreases budget,
{
    if budget > 0 && 0 <= p < d.len() && d[p] >= 128 {
        lemma_reads_below_varint(d, d2, p + 1, (budget - 1) as nat);
        if let Ok((v, q)) = sp_varint(d, p, budget) {
            lemma_agree_below(d, d2, q, p + 1);
            if p < d2.len() && agree(d, d2, d2.len() as int) {
                lemma_agree_below(d, d2, d2.len() as int, p + 1);
            }
        }
    }
}

/// Reading a string reads only the bytes of its prefix and its text.
pub proof fn lemma_reads_below_string(d: Seq<u8>, d2: Seq<u8>)
    ensures
        forall|p: int| reads_below(#[trigger] sp_string_bytes(d, p), sp_string_bytes(d2, p), p, d, d2),
        forall|p: int| reads_below(#[trigger] sp_string(d, p), sp_string(d2, p), p, d, d2),
        forall|p: int| reads_below(#[trigger] sp_string_lossy(d, p), sp_string_lossy(d2, p), p, d, d2),
{
    assert forall|p: int| reads_below(#[trigger] sp_string_bytes(d, p), sp_string_bytes(d2, p), p, d, d2) by {
        lemma_reads_below_varint(d, d2, p, MAX_PREFIX_BYTES as nat);
        if let Ok((b, r)) = sp_string_bytes(d, p) {
            if let Ok((len, q)) = sp_varint(d, p, MAX_PREFIX_BYTES as nat) {
                lemma_agree_below(d, d2, r, q);
                if agree(d, d2, r) {
                    assert(d.subrange(q, r) =~= d2.subrange(q, r));
                }
                if p <= d2.len() < r && agree(d, d2, d2.len() as int) && q <= d2.len() {
                    lemma_agree_below(d, d2, d2.len() as int, q);
                }
            }
        }
    }
    assert forall|p: int| reads_below(#[trigger] sp_string(d, p), sp_string(d2, p), p, d, d2) by {
        assert(reads_below(sp_string_bytes(d, p), sp_string_bytes(d2, p), p, d, d2));
    }
    assert forall|p: int| reads_below(#[trigger] sp_string_lossy(d, p), sp_string_lossy(d2, p), p, d, d2) by {
        assert(reads_below(sp_string_bytes(d, p), sp_string_bytes(d2, p), p, d, d2));
    }
}

proof fn lemma_varint_canonical(d: Seq<u8>, p: int, budget: nat)
    ensures
        sp_varint(d, p, budget) matches Ok((v, q)) ==> p + varint_bytes(v).len() <= q && (p
            + varint_bytes(v).len() == q ==> holds_at(d, p, varint_bytes(v))),
    decreases budget,
{
    if budget > 0 && 0 <= p < d.len() {
        if d[p] < 128 {
            assert(d.subrange(p, p + 1) =~= seq![d[p]]);
        } else {
            lemma_varint_canonical(d, p + 1, (budget - 1) as nat);
            lemma_varint_advances(d, p + 1, (budget - 1) as nat);
            if let Ok((w, q)) = sp_varint(d, p + 1, (budget - 1) as nat) {
                let v = ((d[p] - 128) + 128 * w) as nat;
                if w > 0 {
                    assert(v >= 128);
                    assert(v % 128 == d[p] - 128 && v / 128 == w);
                    assert(varint_bytes(v) == seq![(v % 128 + 128) as u8] + varint_bytes(w));
                    if p + varint_bytes(v).len() == q {
                        assert(holds_at(d, p, seq![(v % 128 + 128) as u8])) by {
                            assert(d.subrange(p, p + 1) =~= seq![(v % 128 + 128) as u8]);
                        }
                        lemma_holds_join(d, p, seq![(v % 128 + 128) as u8], varint_bytes(w));
                    }
                } else {
                    assert(v < 128);
                    assert(varint_bytes(v).len() == 1);
                }
            }
        }
    }
}

/// A string takes at least as many bytes as writing it produces, and where
/// it takes exactly that many, they are the bytes written.
pub proof fn lemma_read_string_canonical(d: Seq<u8>)
    ensures
        forall|p: int| #[trigger] sp_string(d, p) matches Ok((s, q)) ==> p + ser_string(s).len() <= q && (p
            + ser_string(s).len() == q ==> holds_at(d, p, ser_string(s))),
{
    assert forall|p: int| #[trigger] sp_string(d, p) matches Ok((s, q)) ==> p + ser_string(s).len() <= q && (p
        + ser_string(s).len() == q ==> holds_at(d, p, ser_string(s))) by {
        lemma_varint_canonical(d, p, MAX_PREFIX_BYTES as nat);
        lemma_varint_advances(d, p, MAX_PREFIX_BYTES as nat);
        if let Ok((s, r)) = sp_string(d, p) {
            let (len, q) = sp_varint(d, p, MAX_PREFIX_BYTES as nat)->Ok_0;
            let b = d.subrange(q, q + len);
            vstd::utf8::decode_utf8_encode_utf8(b);
            assert(encode_utf8(s) == b);
            assert(ser_string(s) == varint_bytes(len) + b);
            if p + ser_string(s).len() == r {
                assert(holds_at(d, q, b));
                lemma_holds_join(d, p, varint_bytes(len), b);
            }
        }
    }
}

} // verus!
