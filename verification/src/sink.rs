//! Decode consumers: each sink receives decoded values one at a time, in
//! order, and folds them into an owned output buffer.

use vstd::prelude::*;

verus! {

/// `a + b` modulo the `u64` range.
pub open spec fn wrap_add(a: u64, b: u64) -> u64 {
    if a + b > u64::MAX {
        (a + b - 0x10000000000000000) as u64
    } else {
        (a + b) as u64
    }
}

/// `a - b` modulo the `u64` range.
pub open spec fn wrap_sub(a: u64, b: u64) -> u64 {
    if a - b < 0 {
        (a - b + 0x10000000000000000) as u64
    } else {
        (a - b) as u64
    }
}

/// A consumer of a decoded value stream.
///
/// Every incoming value is combined with the current basis; the combined
/// value is appended to the output and becomes the new basis. The three
/// sink variants differ only in the combining function.
pub trait Sink: Sized {
    /// The basis the next incoming value will be combined with.
    spec fn basis(&self) -> u64;

    /// The reconstructed values accumulated so far.
    spec fn out(&self) -> Seq<u64>;

    /// State the sink keeps well-formed across pushes.
    spec fn inv(&self) -> bool;

    /// How an incoming value combines with the basis.
    spec fn combine(b: u64, v: u64) -> u64;

    /// Receive one decoded value.
    fn process(&mut self, v: u64)
        requires
            old(self).inv(),
        ensures
            final(self).inv(),
            final(self).out() == old(self).out().push(Self::combine(old(self).basis(), v)),
            final(self).basis() == Self::combine(old(self).basis(), v);
}

/// The outputs a sink with basis `b` produces from the incoming `vals`.
pub open spec fn sink_outs<S: Sink>(b: u64, vals: Seq<u64>) -> Seq<u64>
    decreases vals.len(),
{
    if vals.len() == 0 {
        Seq::empty()
    } else {
        seq![S::combine(b, vals[0])] + sink_outs::<S>(S::combine(b, vals[0]), vals.skip(1))
    }
}

/// The basis a sink with basis `b` holds after consuming `vals`.
pub open spec fn basis_after<S: Sink>(b: u64, vals: Seq<u64>) -> u64
    decreases vals.len(),
{
    if vals.len() == 0 {
        b
    } else {
        basis_after::<S>(S::combine(b, vals[0]), vals.skip(1))
    }
}

pub proof fn lemma_sink_outs_snoc<S: Sink>(b: u64, vals: Seq<u64>, v: u64)
    ensures
        sink_outs::<S>(b, vals.push(v)) == sink_outs::<S>(b, vals).push(
            S::combine(basis_after::<S>(b, vals), v),
        ),
        basis_after::<S>(b, vals.push(v)) == S::combine(basis_after::<S>(b, vals), v),
    decreases vals.len(),
{
    let pv = vals.push(v);
    if vals.len() == 0 {
        let c = S::combine(b, v);
        assert(pv[0] == v);
        assert(pv.skip(1) =~= Seq::<u64>::empty());
        assert(sink_outs::<S>(c, pv.skip(1)) == Seq::<u64>::empty());
        assert(basis_after::<S>(c, pv.skip(1)) == c);
        assert(sink_outs::<S>(b, pv) == seq![c] + Seq::<u64>::empty());
        assert(sink_outs::<S>(b, vals) == Seq::<u64>::empty());
        assert(basis_after::<S>(b, vals) == b);
        assert(seq![c] + Seq::<u64>::empty() =~= Seq::<u64>::empty().push(c));
    } else {
        let c = S::combine(b, vals[0]);
        assert(pv[0] == vals[0]);
        assert(pv.skip(1) =~= vals.skip(1).push(v));
        lemma_sink_outs_snoc::<S>(c, vals.skip(1), v);
        let tail_basis = basis_after::<S>(c, vals.skip(1));
        assert(basis_after::<S>(b, vals) == tail_basis);
        assert(basis_after::<S>(b, pv) == basis_after::<S>(c, pv.skip(1)));
        assert(sink_outs::<S>(b, pv) == seq![c] + sink_outs::<S>(c, pv.skip(1)));
        assert(sink_outs::<S>(b, vals) == seq![c] + sink_outs::<S>(c, vals.skip(1)));
        assert(seq![c] + sink_outs::<S>(c, vals.skip(1)).push(S::combine(tail_basis, v)) =~= (
        seq![c] + sink_outs::<S>(c, vals.skip(1))).push(S::combine(tail_basis, v)));
    }
}

/// Feed every value of `vals`, in order, to `sink`.
pub fn feed_all<S: Sink>(sink: &mut S, vals: &Vec<u64>)
    requires
        old(sink).inv(),
    ensures
        final(sink).inv(),
        final(sink).out() == old(sink).out() + sink_outs::<S>(old(sink).basis(), vals@),
        final(sink).basis() == basis_after::<S>(old(sink).basis(), vals@),
{
    let ghost b0 = sink.basis();
    let ghost out0 = sink.out();
    let mut i: usize = 0;
    while i < vals.len()
        invariant
            i <= vals@.len(),
            sink.inv(),
            sink.out() == out0 + sink_outs::<S>(b0, vals@.take(i as int)),
            sink.basis() == basis_after::<S>(b0, vals@.take(i as int)),
        decreases vals@.len() - i,
    {
        proof {
            assert(vals@.take(i + 1) =~= vals@.take(i as int).push(vals@[i as int]));
            lemma_sink_outs_snoc::<S>(b0, vals@.take(i as int), vals@[i as int]);
        }
        sink.process(vals[i]);
        i = i + 1;
    }
    proof {
        assert(vals@.take(vals@.len() as int) =~= vals@);
    }
}

/// Reconstructs absolute values from successive deltas: each incoming value
/// is added (wrapping) to a running accumulator seeded at zero or at an
/// explicit base.
pub struct DeltaSink {
    acc: u64,
    buf: Vec<u64>,
}

impl Sink for DeltaSink {
    closed spec fn basis(&self) -> u64 {
        self.acc
    }

    closed spec fn out(&self) -> Seq<u64> {
        self.buf@
    }

    closed spec fn inv(&self) -> bool {
        true
    }

    open spec fn combine(b: u64, v: u64) -> u64 {
        wrap_add(b, v)
    }

    fn process(&mut self, v: u64) {
        self.acc = self.acc.wrapping_add(v);
        self.buf.push(self.acc);
    }
}

impl DeltaSink {
    /// A fresh sink with accumulator zero and empty output.
    pub fn new() -> (s: Self)
        ensures
            s.inv(),
            s.out() == Seq::<u64>::empty(),
            s.basis() == 0u64,
    {
        DeltaSink { acc: 0, buf: Vec::new() }
    }

    /// A fresh sink whose accumulator starts at `base`.
    pub fn with_base(base: u64) -> (s: Self)
        ensures
            s.inv(),
            s.out() == Seq::<u64>::empty(),
            s.basis() == base,
    {
        DeltaSink { acc: base, buf: Vec::new() }
    }

    /// Clear the output and reseed the accumulator at zero, keeping the
    /// backing storage for reuse.
    pub fn reset(&mut self)
        ensures
            final(self).inv(),
            final(self).out() == Seq::<u64>::empty(),
            final(self).basis() == 0u64,
    {
        self.acc = 0;
        self.buf.clear();
    }

    /// Clear the output and reseed the accumulator at `base`.
    pub fn reset_to(&mut self, base: u64)
        ensures
            final(self).inv(),
            final(self).out() == Seq::<u64>::empty(),
            final(self).basis() == base,
    {
        self.acc = base;
        self.buf.clear();
    }

    /// Borrow the reconstructed values; valid until the next mutating call.
    pub fn values(&self) -> (r: &Vec<u64>)
        ensures
            r@ == self.out(),
    {
        &self.buf
    }
}

/// Appends each incoming value unchanged, for streams that already carry
/// absolute quantities.
pub struct RawSink {
    buf: Vec<u64>,
}

impl Sink for RawSink {
    closed spec fn basis(&self) -> u64 {
        if self.buf@.len() == 0 {
            0u64
        } else {
            self.buf@.last()
        }
    }

    closed spec fn out(&self) -> Seq<u64> {
        self.buf@
    }

    closed spec fn inv(&self) -> bool {
        true
    }

    open spec fn combine(b: u64, v: u64) -> u64 {
        v
    }

    fn process(&mut self, v: u64) {
        self.buf.push(v);
    }
}

impl RawSink {
    /// A fresh sink with empty output.
    pub fn new() -> (s: Self)
        ensures
            s.inv(),
            s.out() == Seq::<u64>::empty(),
    {
        RawSink { buf: Vec::new() }
    }

    /// Clear the output, keeping the backing storage for reuse.
    pub fn reset(&mut self)
        ensures
            final(self).inv(),
            final(self).out() == Seq::<u64>::empty(),
    {
        self.buf.clear();
    }

    /// Borrow the collected values; valid until the next mutating call.
    pub fn values(&self) -> (r: &Vec<u64>)
        ensures
            r@ == self.out(),
    {
        &self.buf
    }
}

/// Reconstructs 64-bit float patterns: each incoming value is XOR-ed,
/// bit for bit, against the previously reconstructed pattern.
pub struct XorDoubleSink {
    prev: u64,
    buf: Vec<u64>,
}

impl Sink for XorDoubleSink {
    closed spec fn basis(&self) -> u64 {
        self.prev
    }

    closed spec fn out(&self) -> Seq<u64> {
        self.buf@
    }

    closed spec fn inv(&self) -> bool {
        true
    }

    open spec fn combine(b: u64, v: u64) -> u64 {
        b ^ v
    }

    fn process(&mut self, v: u64) {
        self.prev = self.prev ^ v;
        self.buf.push(self.prev);
    }
}

impl XorDoubleSink {
    /// A fresh sink with previous pattern zero and empty output.
    pub fn new() -> (s: Self)
        ensures
            s.inv(),
            s.out() == Seq::<u64>::empty(),
            s.basis() == 0u64,
    {
        XorDoubleSink { prev: 0, buf: Vec::new() }
    }

    /// Clear the output and the previous pattern, keeping the storage.
    pub fn reset(&mut self)
        ensures
            final(self).inv(),
            final(self).out() == Seq::<u64>::empty(),
            final(self).basis() == 0u64,
    {
        self.prev = 0;
        self.buf.clear();
    }

    /// Borrow the reconstructed patterns; valid until the next mutating call.
    pub fn values(&self) -> (r: &Vec<u64>)
        ensures
            r@ == self.out(),
    {
        &self.buf
    }
}

/// Successive wrapping differences of `vals`, the first taken from zero:
/// the delta stream that a `DeltaSink` seeded at zero folds back to `vals`.
pub open spec fn wrap_deltas(vals: Seq<u64>) -> Seq<u64> {
    Seq::new(vals.len(), |i: int| if i == 0 { vals[0] } else { wrap_sub(vals[i], vals[i - 1]) })
}

proof fn lemma_delta_outs_suffix(vals: Seq<u64>, i: int)
    requires
        1 <= i <= vals.len(),
    ensures
        sink_outs::<DeltaSink>(vals[i - 1], wrap_deltas(vals).skip(i)) == vals.skip(i),
    decreases vals.len() - i,
{
    let wd = wrap_deltas(vals);
    if i == vals.len() {
        assert(wd.skip(i) =~= Seq::<u64>::empty());
        assert(vals.skip(i) =~= Seq::<u64>::empty());
    } else {
        assert(wd.skip(i)[0] == wrap_sub(vals[i], vals[i - 1]));
        assert(wrap_add(vals[i - 1], wrap_sub(vals[i], vals[i - 1])) == vals[i]);
        assert(wd.skip(i).skip(1) =~= wd.skip(i + 1));
        lemma_delta_outs_suffix(vals, i + 1);
        assert(sink_outs::<DeltaSink>(vals[i - 1], wd.skip(i)) =~= seq![vals[i]] + vals.skip(
            i + 1,
        ));
        assert(seq![vals[i]] + vals.skip(i + 1) =~= vals.skip(i));
    }
}

/// A sink emits exactly one output per incoming value.
pub proof fn lemma_sink_outs_len<S: Sink>(b: u64, vals: Seq<u64>)
    ensures
        sink_outs::<S>(b, vals).len() == vals.len(),
    decreases vals.len(),
{
    if vals.len() > 0 {
        lemma_sink_outs_len::<S>(S::combine(b, vals[0]), vals.skip(1));
    }
}

/// A raw sink stores exactly what it is fed, whatever its basis.
pub proof fn lemma_raw_sink_outs(b: u64, vals: Seq<u64>)
    ensures
        sink_outs::<RawSink>(b, vals) == vals,
    decreases vals.len(),
{
    if vals.len() == 0 {
        assert(sink_outs::<RawSink>(b, vals) =~= vals);
    } else {
        lemma_raw_sink_outs(vals[0], vals.skip(1));
        assert(sink_outs::<RawSink>(b, vals) =~= seq![vals[0]] + vals.skip(1));
        assert(seq![vals[0]] + vals.skip(1) =~= vals);
    }
}

/// Successive XOR differences of `vals`, the first taken against zero:
/// the stream that an `XorDoubleSink` folds back to `vals`.
pub open spec fn xor_deltas(vals: Seq<u64>) -> Seq<u64> {
    Seq::new(vals.len(), |i: int| if i == 0 { vals[0] } else { (vals[i - 1] ^ vals[i]) as u64 })
}

proof fn lemma_xor_outs_suffix(vals: Seq<u64>, i: int)
    requires
        1 <= i <= vals.len(),
    ensures
        sink_outs::<XorDoubleSink>(vals[i - 1], xor_deltas(vals).skip(i)) == vals.skip(i),
    decreases vals.len() - i,
{
    let xd = xor_deltas(vals);
    if i == vals.len() {
        assert(xd.skip(i) =~= Seq::<u64>::empty());
        assert(vals.skip(i) =~= Seq::<u64>::empty());
    } else {
        assert(xd.skip(i)[0] == (vals[i - 1] ^ vals[i]) as u64);
        let a = vals[i - 1];
        let v = vals[i];
        assert(a ^ (a ^ v) == v) by (bit_vector);
        assert(xd.skip(i).skip(1) =~= xd.skip(i + 1));
        lemma_xor_outs_suffix(vals, i + 1);
        assert(sink_outs::<XorDoubleSink>(vals[i - 1], xd.skip(i)) =~= seq![vals[i]] + vals.skip(
            i + 1,
        ));
        assert(seq![vals[i]] + vals.skip(i + 1) =~= vals.skip(i));
    }
}

/// An XOR sink seeded at zero folds the XOR difference stream of any
/// pattern sequence back to that sequence, exactly.
pub proof fn lemma_xor_sink_reconstructs(vals: Seq<u64>)
    ensures
        sink_outs::<XorDoubleSink>(0u64, xor_deltas(vals)) == vals,
{
    let xd = xor_deltas(vals);
    if vals.len() == 0 {
        assert(sink_outs::<XorDoubleSink>(0u64, xd) =~= vals);
    } else {
        assert(xd[0] == vals[0]);
        let v = vals[0];
        assert(0u64 ^ v == v) by (bit_vector);
        lemma_xor_outs_suffix(vals, 1);
        assert(sink_outs::<XorDoubleSink>(0u64, xd) =~= seq![vals[0]] + vals.skip(1));
        assert(seq![vals[0]] + vals.skip(1) =~= vals);
    }
}

/// A delta sink seeded at zero folds the wrapping delta stream of any
/// value sequence back to that sequence, exactly.
pub proof fn lemma_delta_sink_reconstructs(vals: Seq<u64>)
    ensures
        sink_outs::<DeltaSink>(0u64, wrap_deltas(vals)) == vals,
{
    let wd = wrap_deltas(vals);
    if vals.len() == 0 {
        assert(sink_outs::<DeltaSink>(0u64, wd) =~= vals);
    } else {
        assert(wd[0] == vals[0]);
        assert(wrap_add(0u64, vals[0]) == vals[0]);
        assert(wd.skip(1) =~= wrap_deltas(vals).skip(1));
        lemma_delta_outs_suffix(vals, 1);
        assert(sink_outs::<DeltaSink>(0u64, wd) =~= seq![vals[0]] + vals.skip(1));
        assert(seq![vals[0]] + vals.skip(1) =~= vals);
    }
}

} // verus!
