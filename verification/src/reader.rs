//! Reading the game's files: a cursor over bytes, and the spec-level
//! parsers that state what each read gives.
use crate::error::{DataError, SaveError};
use crate::le::{
    le_bytes_i32, le_bytes_u32, le_i32, le_u32, lemma_le_i32_bytes, lemma_le_i32_roundtrip, lemma_le_u32_bytes,
    lemma_le_u32_roundtrip,
    read_i32_le, read_u32_le,
};
use vstd::prelude::*;

verus! {

/// The result of a spec-level parser started at some position of the input:
/// the value and the position just after it, or the error and the position
/// at which the reader stops.
pub type Parsed<V> = Result<(V, int), (SaveError, int)>;

/// `res` is what an executable reader returned, ending at `end`, when the
/// spec-level parser gives `spec`.
pub open spec fn outcome<V>(spec: Parsed<V>, res: Result<V, SaveError>, end: int) -> bool {
    match res {
        Ok(v) => spec == Ok::<(V, int), (SaveError, int)>((v, end)),
        Err(e) => spec == Err::<(V, int), (SaveError, int)>((e, end)),
    }
}

/// The view of an executable result.
pub open spec fn view_result<T: View>(r: Result<T, SaveError>) -> Result<T::V, SaveError> {
    match r {
        Ok(v) => Ok(v@),
        Err(e) => Err(e),
    }
}

/// The view of an executable result that may hold no value.
pub open spec fn view_opt_result<T: View>(r: Result<Option<T>, SaveError>) -> Result<Option<T::V>, SaveError> {
    match r {
        Ok(Some(v)) => Ok(Some(v@)),
        Ok(None) => Ok(None),
        Err(e) => Err(e),
    }
}

/// The result of reading a whole file: the value, or the error.
pub open spec fn drop_pos<V>(r: Parsed<V>) -> Result<V, SaveError> {
    match r {
        Ok((v, _)) => Ok(v),
        Err((e, _)) => Err(e),
    }
}

/// A parse whose value is dropped.
pub open spec fn discard<T>(r: Parsed<T>) -> Parsed<()> {
    match r {
        Ok((_, q)) => Ok(((), q)),
        Err(e) => Err(e),
    }
}

/// `n` records read one after another from `p`; the record with index `k`
/// is read by `step(position, k)`, which may also skip it (`None`).
pub open spec fn rep<T>(step: spec_fn(int, int) -> Parsed<Option<T>>, p: int, n: nat) -> Parsed<
    Seq<T>,
>
    decreases n,
{
    if n == 0 {
        Ok((Seq::empty(), p))
    } else {
        match rep(step, p, (n - 1) as nat) {
            Ok((s, q)) => match step(q, n - 1) {
                Ok((Some(x), r)) => Ok((s.push(x), r)),
                Ok((None, r)) => Ok((s, r)),
                Err(e) => Err(e),
            },
            Err(e) => Err(e),
        }
    }
}

/// `count` records of a kind, where a negative count is refused.
pub open spec fn sp_counted<T>(count: i32, step: spec_fn(int, int) -> Parsed<Option<T>>, p: int) -> Parsed<Seq<T>> {
    if count < 0 {
        Err((SaveError::InvalidData(DataError::NegativeCount(count)), p))
    } else {
        rep(step, p, count as nat)
    }
}

/// Once a repetition fails, reading more records fails the same way.
pub proof fn lemma_rep_err<T>(step: spec_fn(int, int) -> Parsed<Option<T>>, p: int, i: nat, n: nat)
    requires
        i <= n,
        rep(step, p, i) is Err,
    ensures
        rep(step, p, n) == rep(step, p, i),
    decreases n - i,
{
    if i < n {
        lemma_rep_err(step, p, i, (n - 1) as nat);
    }
}

/// A repetition gives at most one record for each step.
pub proof fn lemma_rep_len<T>(step: spec_fn(int, int) -> Parsed<Option<T>>, p: int, n: nat)
    ensures
        rep(step, p, n) matches Ok((s, _)) ==> s.len() <= n,
    decreases n,
{
    if n > 0 {
        lemma_rep_len(step, p, (n - 1) as nat);
    }
}

/// A repetition whose steps never skip gives exactly one record for each step.
pub proof fn lemma_rep_exact<T>(step: spec_fn(int, int) -> Parsed<Option<T>>, p: int, n: nat)
    requires
        forall|q: int, k: int| #[trigger] step(q, k) matches Ok((x, _)) ==> x is Some,
    ensures
        rep(step, p, n) matches Ok((s, _)) ==> s.len() == n,
    decreases n,
{
    if n > 0 {
        lemma_rep_exact(step, p, (n - 1) as nat);
    }
}

/// Where every record that a step gives satisfies `pred`, every record of
/// the repetition does.
pub proof fn lemma_rep_all<T>(
    step: spec_fn(int, int) -> Parsed<Option<T>>,
    p: int,
    n: nat,
    pred: spec_fn(T) -> bool,
)
    requires
        forall|q: int, k: int| #[trigger] step(q, k) matches Ok((Some(x), _)) ==> pred(x),
    ensures
        rep(step, p, n) matches Ok((s, _)) ==> forall|i: int| 0 <= i < s.len() ==> pred(#[trigger] s[i]),
    decreases n,
{
    if n > 0 {
        lemma_rep_all(step, p, (n - 1) as nat, pred);
        if let Ok((s, q)) = rep(step, p, (n - 1) as nat) {
            if let Ok((Some(x), _)) = step(q, n - 1) {
                assert(pred(x));
                assert forall|i: int| 0 <= i < s.push(x).len() implies pred(#[trigger] s.push(x)[i]) by {
                    if i < s.len() {
                        assert(s.push(x)[i] == s[i]);
                    }
                }
            }
        }
    }
}

/// One byte at `p`.
pub open spec fn sp_u8(d: Seq<u8>, p: int) -> Parsed<u8> {
    if 0 <= p && p + 1 <= d.len() {
        Ok((d[p], p + 1))
    } else {
        Err((SaveError::UnexpectedEof, d.len() as int))
    }
}

/// A byte at `p` read as a flag: any non-zero byte is `true`.
pub open spec fn sp_bool(d: Seq<u8>, p: int) -> Parsed<bool> {
    match sp_u8(d, p) {
        Ok((b, q)) => Ok((b != 0, q)),
        Err(e) => Err(e),
    }
}

/// A little-endian `u32` at `p` (also the bit pattern of an `f32`).
pub open spec fn sp_u32(d: Seq<u8>, p: int) -> Parsed<u32> {
    if 0 <= p && p + 4 <= d.len() {
        Ok((le_u32(d.subrange(p, p + 4)), p + 4))
    } else {
        Err((SaveError::UnexpectedEof, d.len() as int))
    }
}

/// A little-endian `i32` at `p`.
pub open spec fn sp_i32(d: Seq<u8>, p: int) -> Parsed<i32> {
    if 0 <= p && p + 4 <= d.len() {
        Ok((le_i32(d.subrange(p, p + 4)), p + 4))
    } else {
        Err((SaveError::UnexpectedEof, d.len() as int))
    }
}

/// A cursor over a byte slice.
pub struct ByteReader<'a> {
    pub data: &'a [u8],
    pub pos: usize,
}

impl<'a> ByteReader<'a> {
    pub open spec fn bytes(&self) -> Seq<u8> {
        self.data@
    }

    pub open spec fn at(&self) -> int {
        self.pos as int
    }

    pub fn new(data: &'a [u8]) -> (r: Self)
        ensures
            r.bytes() == data@,
            r.at() == 0,
    {
        ByteReader { data, pos: 0 }
    }

    pub fn read_u8(&mut self) -> (res: Result<u8, SaveError>)
        ensures
            final(self).bytes() == old(self).bytes(),
            outcome(sp_u8(old(self).bytes(), old(self).at()), res, final(self).at()),
    {
        if self.pos < self.data.len() {
            let b = self.data[self.pos];
            self.pos = self.pos + 1;
            Ok(b)
        } else {
            self.pos = self.data.len();
            Err(SaveError::UnexpectedEof)
        }
    }

    pub fn read_bool(&mut self) -> (res: Result<bool, SaveError>)
        ensures
            final(self).bytes() == old(self).bytes(),
            outcome(sp_bool(old(self).bytes(), old(self).at()), res, final(self).at()),
    {
        match self.read_u8() {
            Ok(b) => Ok(b != 0),
            Err(e) => Err(e),
        }
    }

    pub fn read_u32(&mut self) -> (res: Result<u32, SaveError>)
        ensures
            final(self).bytes() == old(self).bytes(),
            outcome(sp_u32(old(self).bytes(), old(self).at()), res, final(self).at()),
    {
        if self.pos <= self.data.len() && self.data.len() - self.pos >= 4 {
            let v = read_u32_le(&self.data[self.pos..self.pos + 4]);
            self.pos = self.pos + 4;
            Ok(v)
        } else {
            self.pos = self.data.len();
            Err(SaveError::UnexpectedEof)
        }
    }

    pub fn read_i32(&mut self) -> (res: Result<i32, SaveError>)
        ensures
            final(self).bytes() == old(self).bytes(),
            outcome(sp_i32(old(self).bytes(), old(self).at()), res, final(self).at()),
    {
        if self.pos <= self.data.len() && self.data.len() - self.pos >= 4 {
            let v = read_i32_le(&self.data[self.pos..self.pos + 4]);
            self.pos = self.pos + 4;
            Ok(v)
        } else {
            self.pos = self.data.len();
            Err(SaveError::UnexpectedEof)
        }
    }
}

/// A written `u32` reads back as itself.
pub proof fn lemma_u32_roundtrip(d: Seq<u8>, p: int, n: u32)
    requires
        0 <= p,
        p + 4 <= d.len(),
        d.subrange(p, p + 4) == le_bytes_u32(n),
    ensures
        sp_u32(d, p) == Ok::<(u32, int), (SaveError, int)>((n, p + 4)),
{
    lemma_le_u32_roundtrip(n, Seq::empty());
    assert(le_bytes_u32(n) + Seq::<u8>::empty() =~= le_bytes_u32(n));
}

/// A written `i32` reads back as itself.
pub proof fn lemma_i32_roundtrip(d: Seq<u8>, p: int, n: i32)
    requires
        0 <= p,
        p + 4 <= d.len(),
        d.subrange(p, p + 4) == le_bytes_i32(n),
    ensures
        sp_i32(d, p) == Ok::<(i32, int), (SaveError, int)>((n, p + 4)),
{
    lemma_le_i32_roundtrip(n, Seq::empty());
    assert(le_bytes_i32(n) + Seq::<u8>::empty() =~= le_bytes_i32(n));
}

/// `d` holds the bytes `a` from position `p` on.
pub open spec fn holds_at(d: Seq<u8>, p: int, a: Seq<u8>) -> bool {
    0 <= p && p + a.len() <= d.len() && d.subrange(p, p + a.len()) == a
}

/// Where `d` holds `a + b` at `p`, it holds `a` at `p` and `b` right after.
pub proof fn lemma_holds_split(d: Seq<u8>, p: int, a: Seq<u8>, b: Seq<u8>)
    requires
        holds_at(d, p, a + b),
    ensures
        holds_at(d, p, a),
        holds_at(d, p + a.len(), b),
{
    assert(d.subrange(p, p + a.len()) =~= (a + b).subrange(0, a.len() as int));
    assert((a + b).subrange(0, a.len() as int) =~= a);
    assert(d.subrange(p + a.len(), p + a.len() + b.len()) =~= (a + b).subrange(
        a.len() as int,
        (a + b).len() as int,
    ));
    assert((a + b).subrange(a.len() as int, (a + b).len() as int) =~= b);
}

/// `d2` holds the same bytes as `d` below position `n`.
pub open spec fn agree(d: Seq<u8>, d2: Seq<u8>, n: int) -> bool {
    &&& 0 <= n <= d.len()
    &&& n <= d2.len()
    &&& forall|i: int| 0 <= i < n ==> d[i] == d2[i]
}

/// Holding the same bytes below `m` means holding them below any `n <= m`.
pub broadcast proof fn lemma_agree_below(d: Seq<u8>, d2: Seq<u8>, m: int, n: int)
    requires
        0 <= n <= m,
    ensures
        #[trigger] agree(d, d2, m) ==> #[trigger] agree(d, d2, n),
{
}

/// A read from `d` at `p` that succeeded, ending at `q`, reads only the bytes
/// below `q`: on input `d2` that holds the same bytes up to `q` it gives the
/// same result, and on input `d2` that ends after `p` but before `q`,
/// holding the same bytes up to its end, it fails.
pub open spec fn reads_below<V>(r: Parsed<V>, r2: Parsed<V>, p: int, d: Seq<u8>, d2: Seq<u8>) -> bool {
    r matches Ok((_, q)) ==> {
        &&& 0 <= p <= q <= d.len()
        &&& agree(d, d2, q) ==> r2 == r
        &&& (p <= d2.len() < q && agree(d, d2, d2.len() as int)) ==> r2 is Err
    }
}

pub proof fn lemma_reads_below_u8(d: Seq<u8>, d2: Seq<u8>)
    ensures
        forall|p: int| reads_below(#[trigger] sp_u8(d, p), sp_u8(d2, p), p, d, d2),
        forall|p: int| reads_below(#[trigger] sp_bool(d, p), sp_bool(d2, p), p, d, d2),
{
}

pub proof fn lemma_reads_below_u32(d: Seq<u8>, d2: Seq<u8>)
    ensures
        forall|p: int| reads_below(#[trigger] sp_u32(d, p), sp_u32(d2, p), p, d, d2),
        forall|p: int| reads_below(#[trigger] sp_i32(d, p), sp_i32(d2, p), p, d, d2),
{
    assert forall|p: int| reads_below(#[trigger] sp_u32(d, p), sp_u32(d2, p), p, d, d2) by {
        if 0 <= p && p + 4 <= d.len() && agree(d, d2, p + 4) {
            assert(d.subrange(p, p + 4) =~= d2.subrange(p, p + 4));
        }
    }
    assert forall|p: int| reads_below(#[trigger] sp_i32(d, p), sp_i32(d2, p), p, d, d2) by {
        if 0 <= p && p + 4 <= d.len() && agree(d, d2, p + 4) {
            assert(d.subrange(p, p + 4) =~= d2.subrange(p, p + 4));
        }
    }
}

/// A repetition reads only the bytes below where it ends, when each step does.
pub proof fn lemma_reads_below_rep<T>(
    f: spec_fn(int, int) -> Parsed<Option<T>>,
    f2: spec_fn(int, int) -> Parsed<Option<T>>,
    p: int,
    n: nat,
    d: Seq<u8>,
    d2: Seq<u8>,
)
    requires
        0 <= p <= d.len(),
        forall|q: int, k: int| reads_below(#[trigger] f(q, k), f2(q, k), q, d, d2),
    ensures
        reads_below(rep(f, p, n), rep(f2, p, n), p, d, d2),
    decreases n,
{
    if n > 0 {
        lemma_reads_below_rep(f, f2, p, (n - 1) as nat, d, d2);
        if let Ok((s, q)) = rep(f, p, (n - 1) as nat) {
            assert(reads_below(f(q, n - 1), f2(q, n - 1), q, d, d2));
            if let Ok((s2, q2)) = rep(f, p, n) {
                lemma_agree_below(d, d2, q2, q);
                if d2.len() < q2 && agree(d, d2, d2.len() as int) && q <= d2.len() {
                    lemma_agree_below(d, d2, d2.len() as int, q);
                }
            }
        }
    }
}

pub proof fn lemma_reads_below_counted<T>(
    count: i32,
    f: spec_fn(int, int) -> Parsed<Option<T>>,
    f2: spec_fn(int, int) -> Parsed<Option<T>>,
    p: int,
    d: Seq<u8>,
    d2: Seq<u8>,
)
    requires
        0 <= p <= d.len(),
        forall|q: int, k: int| reads_below(#[trigger] f(q, k), f2(q, k), q, d, d2),
    ensures
        reads_below(sp_counted(count, f, p), sp_counted(count, f2, p), p, d, d2),
{
    if count >= 0 {
        lemma_reads_below_rep(f, f2, p, count as nat, d, d2);
    }
}

/// Bytes appended after `d` leave its bytes as they were.
pub proof fn lemma_agree_extend(d: Seq<u8>, extra: Seq<u8>)
    ensures
        forall|q: int| 0 <= q <= d.len() ==> #[trigger] agree(d, d + extra, q),
{
    assert forall|q: int| 0 <= q <= d.len() implies #[trigger] agree(d, d + extra, q) by {
        assert forall|i: int| 0 <= i < q implies d[i] == (d + extra)[i] by {}
    }
}

/// A prefix of `d` holds the bytes of `d` up to its end.
pub proof fn lemma_agree_take(d: Seq<u8>, k: int)
    requires
        0 <= k <= d.len(),
    ensures
        agree(d, d.take(k), k),
{
}

/// Where a read succeeds on `d`, it succeeds the same way on `d` followed
/// by any bytes, and it fails on `d` cut before where the read ends.
pub proof fn lemma_reads_below_extend_take<V>(r: Parsed<V>, r_ext: Parsed<V>, r_cut: Parsed<V>, p: int, d: Seq<u8>, extra: Seq<u8>, k: int)
    requires
        reads_below(r, r_ext, p, d, d + extra),
        reads_below(r, r_cut, p, d, d.take(k)),
        0 <= k <= d.len(),
    ensures
        r is Ok ==> r_ext == r,
        r matches Ok((_, m)) && p <= k < m ==> r_cut is Err,
{
    lemma_agree_extend(d, extra);
    lemma_agree_take(d, k);
}

/// Where `d` holds `a` at `p` and `b` right after, it holds `a + b` at `p`.
pub proof fn lemma_holds_join(d: Seq<u8>, p: int, a: Seq<u8>, b: Seq<u8>)
    requires
        holds_at(d, p, a),
        holds_at(d, p + a.len(), b),
    ensures
        holds_at(d, p, a + b),
{
    assert(d.subrange(p, p + (a + b).len()) =~= a + b) by {
        assert forall|i: int| 0 <= i < (a + b).len() implies d.subrange(p, p + (a + b).len())[i] == (a
            + b)[i] by {
            if i < a.len() {
                assert(d.subrange(p, p + a.len())[i] == a[i]);
            } else {
                assert(d.subrange(p + a.len(), p + a.len() + b.len())[i - a.len()] == b[i - a.len()]);
            }
        }
    }
}

/// The four bytes a number was read from are its encoding.
pub proof fn lemma_read_numbers_canonical(d: Seq<u8>)
    ensures
        forall|p: int| #[trigger] sp_u32(d, p) matches Ok((v, q)) ==> q == p + 4 && holds_at(d, p, le_bytes_u32(v)),
        forall|p: int| #[trigger] sp_i32(d, p) matches Ok((v, q)) ==> q == p + 4 && holds_at(d, p, le_bytes_i32(v)),
{
    assert forall|p: int| #[trigger] sp_u32(d, p) matches Ok((v, q)) ==> q == p + 4 && holds_at(d, p, le_bytes_u32(v)) by {
        if 0 <= p && p + 4 <= d.len() {
            lemma_le_u32_bytes(d.subrange(p, p + 4));
        }
    }
    assert forall|p: int| #[trigger] sp_i32(d, p) matches Ok((v, q)) ==> q == p + 4 && holds_at(d, p, le_bytes_i32(v)) by {
        if 0 <= p && p + 4 <= d.len() {
            lemma_le_i32_bytes(d.subrange(p, p + 4));
        }
    }
}

/// The bytes from `p` to `q` are at least as many as `b`, and where they
/// are exactly as many, they are `b`.
pub open spec fn canonical_at(d: Seq<u8>, p: int, q: int, b: Seq<u8>) -> bool {
    &&& p + b.len() <= q
    &&& p + b.len() == q ==> holds_at(d, p, b)
}

pub proof fn lemma_canonical_join(d: Seq<u8>, p: int, q1: int, q2: int, a: Seq<u8>, b: Seq<u8>)
    requires
        canonical_at(d, p, q1, a),
        canonical_at(d, q1, q2, b),
    ensures
        canonical_at(d, p, q2, a + b),
{
    if p + (a + b).len() == q2 {
        lemma_holds_join(d, p, a, b);
    }
}

/// The values that `g` gives as `Some`, in order.
pub open spec fn filter_map<A, B>(s: Seq<A>, g: spec_fn(A) -> Option<B>) -> Seq<B>
    decreases s.len(),
{
    if s.len() == 0 {
        Seq::empty()
    } else {
        match g(s.last()) {
            Some(y) => filter_map(s.drop_last(), g).push(y),
            None => filter_map(s.drop_last(), g),
        }
    }
}

/// A step's result with `g` applied to the record it gives.
pub open spec fn lift_step<A, B>(r: Parsed<Option<A>>, g: spec_fn(A) -> Option<B>) -> Parsed<Option<B>> {
    match r {
        Ok((Some(x), q)) => Ok((g(x), q)),
        Ok((None, q)) => Ok((None, q)),
        Err(e) => Err(e),
    }
}

/// Where each step of `fb` is a step of `fa` with `g` applied to its
/// record, the repetition of `fb` ends where that of `fa` does, with the
/// records that `g` gives from those of `fa`, or fails as it does.
pub proof fn lemma_rep_lift<A, B>(
    fa: spec_fn(int, int) -> Parsed<Option<A>>,
    fb: spec_fn(int, int) -> Parsed<Option<B>>,
    g: spec_fn(A) -> Option<B>,
    p: int,
    n: nat,
)
    requires
        forall|q: int, k: int| #[trigger] fb(q, k) == lift_step(fa(q, k), g),
    ensures
        rep(fb, p, n) == match rep(fa, p, n) {
            Ok((s, q)) => Ok((filter_map(s, g), q)),
            Err(e) => Err::<(Seq<B>, int), (SaveError, int)>(e),
        },
    decreases n,
{
    if n > 0 {
        lemma_rep_lift(fa, fb, g, p, (n - 1) as nat);
        if let Ok((s, q)) = rep(fa, p, (n - 1) as nat) {
            assert(fb(q, n - 1) == lift_step(fa(q, n - 1), g));
            if let Ok((Some(x), r)) = fa(q, n - 1) {
                assert(s.push(x).drop_last() =~= s);
            }
        }
    }
}

/// `filter_map` sees only what `g` gives: replacing each value by one on
/// which `g` gives the same leaves the result unchanged.
pub proof fn lemma_filter_map_map<A, B>(s: Seq<A>, h: spec_fn(A) -> A, g: spec_fn(A) -> Option<B>)
    requires
        forall|x: A| #[trigger] g(h(x)) == g(x),
    ensures
        filter_map(s.map_values(h), g) == filter_map(s, g),
    decreases s.len(),
{
    if s.len() > 0 {
        lemma_filter_map_map(s.drop_last(), h, g);
        assert(s.map_values(h).drop_last() =~= s.drop_last().map_values(h));
        assert(s.map_values(h).last() == h(s.last()));
    }
}

} // verus!
