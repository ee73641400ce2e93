//! Numeric fingerprints: expressions that agree at a fixed set of sample points are candidates
//! for being equal.

use rustc_hash::FxHashMap;
use vstd::bytes::{
    lemma_auto_spec_u64_to_from_le_bytes, spec_u64_from_le_bytes, spec_u64_to_le_bytes,
    u64_to_le_bytes,
};
use vstd::prelude::*;

use crate::arena::Interner;
use crate::complex::Complex64;
use crate::fx::{fx_get, fx_insert, fx_new, fx_remove};
use crate::plan::{make_plan, plan_at, plan_ok, Step};

verus! {

/// Working precision for the evaluation of samples, in bits.
pub const EVAL_PRECISION_BITS: u32 = 192;

/// How many sample points there are.
pub const SAMPLES: usize = 6;

/// The sample points: `0.371+0.912i`, `-1.234+0.567i`, `2.718-0.318i`, `-0.618-1.414i`,
/// `1.618+2.236i` and `-2.5+1.1i`. They avoid 0, 1, -1 and the roots of unity, where exponentials
/// and logarithms could cancel by coincidence.
pub open spec fn points() -> Seq<Complex64> {
    seq![
        Complex64 { re: 0x3fd7_be76_c8b4_3958, im: 0x3fed_2f1a_9fbe_76c9 },
        Complex64 { re: 0xbff3_be76_c8b4_3958, im: 0x3fe2_24dd_2f1a_9fbe },
        Complex64 { re: 0x4005_be76_c8b4_3958, im: 0xbfd4_5a1c_ac08_3127 },
        Complex64 { re: 0xbfe3_c6a7_ef9d_b22d, im: 0xbff6_9fbe_76c8_b439 },
        Complex64 { re: 0x3ff9_e353_f7ce_d917, im: 0x4001_e353_f7ce_d917 },
        Complex64 { re: 0xc004_0000_0000_0000, im: 0x3ff1_9999_9999_999a },
    ]
}

/// The sample points.
pub fn sample_points() -> (r: [Complex64; 6])
    ensures
        r@ == points(),
{
    let r = [
        Complex64 { re: 0x3fd7_be76_c8b4_3958, im: 0x3fed_2f1a_9fbe_76c9 },
        Complex64 { re: 0xbff3_be76_c8b4_3958, im: 0x3fe2_24dd_2f1a_9fbe },
        Complex64 { re: 0x4005_be76_c8b4_3958, im: 0xbfd4_5a1c_ac08_3127 },
        Complex64 { re: 0xbfe3_c6a7_ef9d_b22d, im: 0xbff6_9fbe_76c8_b439 },
        Complex64 { re: 0x3ff9_e353_f7ce_d917, im: 0x4001_e353_f7ce_d917 },
        Complex64 { re: 0xc004_0000_0000_0000, im: 0x3ff1_9999_9999_999a },
    ];
    assert(r@ =~= points());
    r
}

/// The bytes of one sample: sixteen of them, the real part before the imaginary one, each with
/// the least significant byte first.
pub open spec fn sample_code(z: Complex64) -> Seq<u8> {
    spec_u64_to_le_bytes(z.re) + spec_u64_to_le_bytes(z.im)
}

/// The bytes of the samples, one after the other.
pub open spec fn samples_code(samples: Seq<Complex64>) -> Seq<u8>
    decreases samples.len(),
{
    if samples.len() == 0 {
        Seq::empty()
    } else {
        samples_code(samples.drop_last()) + sample_code(samples.last())
    }
}

/// Different samples have different bytes, so that equal bytes mean agreement at every sample
/// point, bit for bit.
pub proof fn law_samples_code_injective(a: Seq<Complex64>, b: Seq<Complex64>)
    requires
        samples_code(a) == samples_code(b),
    ensures
        a == b,
    decreases a.len(),
{
    lemma_auto_spec_u64_to_from_le_bytes();
    lemma_samples_code_len(a);
    lemma_samples_code_len(b);
    assert(a.len() == b.len());
    if a.len() > 0 {
        let n = samples_code(a).len();
        let (x, y) = (a.last(), b.last());
        assert(samples_code(a.drop_last()) =~= samples_code(a).take(n - 16)) by {
            lemma_samples_code_len(a.drop_last());
        }
        assert(samples_code(b.drop_last()) =~= samples_code(b).take(n - 16)) by {
            lemma_samples_code_len(b.drop_last());
        }
        assert(sample_code(x) =~= samples_code(a).skip(n - 16)) by {
            lemma_samples_code_len(a.drop_last());
        }
        assert(sample_code(y) =~= samples_code(b).skip(n - 16)) by {
            lemma_samples_code_len(b.drop_last());
        }
        assert(spec_u64_to_le_bytes(x.re) =~= sample_code(x).take(8));
        assert(spec_u64_to_le_bytes(y.re) =~= sample_code(y).take(8));
        assert(spec_u64_to_le_bytes(x.im) =~= sample_code(x).skip(8));
        assert(spec_u64_to_le_bytes(y.im) =~= sample_code(y).skip(8));
        assert(x.re == spec_u64_from_le_bytes(spec_u64_to_le_bytes(y.re)));
        assert(x.im == spec_u64_from_le_bytes(spec_u64_to_le_bytes(y.im)));
        law_samples_code_injective(a.drop_last(), b.drop_last());
        assert(a =~= a.drop_last().push(x));
        assert(b =~= b.drop_last().push(y));
    } else {
        assert(a =~= b);
    }
}

/// The samples can be read from the bytes: sixteen for each of them, the real part in the first eight
/// and the imaginary part in the last, with the least significant byte first.
pub proof fn law_samples_are_read_back(samples: Seq<Complex64>, i: int)
    requires
        0 <= i < samples.len(),
    ensures
        ({
            let code = samples_code(samples);
            &&& code.len() == 16 * samples.len()
            &&& spec_u64_from_le_bytes(code.subrange(16 * i, 16 * i + 8)) == samples[i].re
            &&& spec_u64_from_le_bytes(code.subrange(16 * i + 8, 16 * i + 16)) == samples[i].im
        }),
    decreases samples.len(),
{
    lemma_auto_spec_u64_to_from_le_bytes();
    lemma_samples_code_len(samples);
    let before = samples.drop_last();
    lemma_samples_code_len(before);
    let code = samples_code(samples);
    let z = samples[i];
    if i < before.len() {
        law_samples_are_read_back(before, i);
        let short = samples_code(before);
        assert(before[i] == z);
        assert(code.subrange(16 * i, 16 * i + 8) =~= short.subrange(16 * i, 16 * i + 8));
        assert(code.subrange(16 * i + 8, 16 * i + 16) =~= short.subrange(16 * i + 8, 16 * i + 16));
    } else {
        assert(code.subrange(16 * i, 16 * i + 8) =~= spec_u64_to_le_bytes(z.re));
        assert(code.subrange(16 * i + 8, 16 * i + 16) =~= spec_u64_to_le_bytes(z.im));
    }
}

/// Each sample takes sixteen bytes.
pub proof fn lemma_samples_code_len(samples: Seq<Complex64>)
    ensures
        samples_code(samples).len() == 16 * samples.len(),
    decreases samples.len(),
{
    lemma_auto_spec_u64_to_from_le_bytes();
    if samples.len() > 0 {
        lemma_samples_code_len(samples.drop_last());
    }
}

fn push_bytes(buf: &mut Vec<u8>, z: Complex64)
    ensures
        final(buf)@ == old(buf)@ + sample_code(z),
{
    let mut re = u64_to_le_bytes(z.re);
    let mut im = u64_to_le_bytes(z.im);
    buf.append(&mut re);
    buf.append(&mut im);
    assert(buf@ =~= old(buf)@ + sample_code(z));
}

/// The bytes of `samples`, one after the other.
pub fn encode_samples(samples: &Vec<Complex64>) -> (buf: Vec<u8>)
    ensures
        buf@ == samples_code(samples@),
{
    let mut buf: Vec<u8> = Vec::new();
    let mut k: usize = 0;
    assert(samples@.take(0) =~= Seq::<Complex64>::empty());
    while k < samples.len()
        invariant
            k <= samples@.len(),
            buf@ == samples_code(samples@.take(k as int)),
        decreases samples@.len() - k,
    {
        push_bytes(&mut buf, samples[k]);
        assert(samples@.take(k + 1).drop_last() =~= samples@.take(k as int));
        k += 1;
    }
    assert(samples@.take(samples@.len() as int) =~= samples@);
    buf
}

/// `eval` can be asked for the value of any plan at any point.
pub open spec fn evaluator<E: Fn(&Vec<Step>, Complex64) -> Complex64>(eval: E) -> bool {
    forall|plan: &Vec<Step>, x: Complex64| plan_ok(plan@) ==> #[trigger] call_requires(eval, (plan, x))
}

/// `eval` may give `z` for the plan at `x`.
pub open spec fn may_give<E: Fn(&Vec<Step>, Complex64) -> Complex64>(
    eval: E,
    plan: Seq<Step>,
    x: Complex64,
    z: Complex64,
) -> bool {
    exists|v: Vec<Step>| v@ == plan && #[trigger] call_ensures(eval, (&v, x), z)
}

/// `samples` is what `eval` may give for the plan at the sample points, in order.
pub open spec fn may_sample<E: Fn(&Vec<Step>, Complex64) -> Complex64>(
    eval: E,
    plan: Seq<Step>,
    samples: Seq<Complex64>,
) -> bool {
    samples.len() == points().len() && forall|k: int|
        0 <= k < samples.len() ==> may_give(eval, plan, points()[k], #[trigger] samples[k])
}

/// `bytes` is the code of samples that `eval` may give for the plan.
pub open spec fn may_encode<E: Fn(&Vec<Step>, Complex64) -> Complex64>(
    eval: E,
    plan: Seq<Step>,
    bytes: Seq<u8>,
) -> bool {
    exists|samples: Seq<Complex64>| #[trigger]
        may_sample(eval, plan, samples) && bytes == samples_code(samples)
}

/// The six samples take ninety-six bytes.
pub proof fn lemma_encoded_len<E: Fn(&Vec<Step>, Complex64) -> Complex64>(
    eval: E,
    plan: Seq<Step>,
    bytes: Seq<u8>,
)
    requires
        may_encode(eval, plan, bytes),
    ensures
        bytes.len() == 96,
{
    let samples = choose|samples: Seq<Complex64>| #[trigger]
        may_sample(eval, plan, samples) && bytes == samples_code(samples);
    lemma_samples_code_len(samples);
}

/// The values of an expression at the sample points, as bytes. `eval` evaluates a plan at a
/// point.
pub fn sample_bytes<E: Fn(&Vec<Step>, Complex64) -> Complex64>(
    interner: &Interner,
    node: u32,
    eval: &E,
) -> (bytes: Vec<u8>)
    requires
        interner.wf(),
        node < interner.nodes().len(),
        evaluator(*eval),
    ensures
        may_encode(*eval, plan_at(interner.nodes(), node), bytes@),
        bytes@.len() == 96,
{
    let plan = make_plan(interner, node);
    let xs = sample_points();
    let mut samples: Vec<Complex64> = Vec::new();
    let mut k: usize = 0;
    while k < SAMPLES
        invariant
            evaluator(*eval),
            plan_ok(plan@),
            xs@ == points(),
            k <= SAMPLES,
            samples@.len() == k,
            forall|m: int|
                0 <= m < k ==> may_give(*eval, plan@, points()[m], #[trigger] samples@[m]),
        decreases SAMPLES - k,
    {
        let z = eval(&plan, xs[k]);
        assert(may_give(*eval, plan@, points()[k as int], z));
        samples.push(z);
        k += 1;
    }
    proof {
        assert(may_sample(*eval, plan@, samples@));
        lemma_samples_code_len(samples@);
    }
    encode_samples(&samples)
}

/// The 64-bit hash of a string of bytes.
pub uninterp spec fn xxh3(bytes: Seq<u8>) -> u64;

/// `xxhash_rust::xxh3::xxh3_64`. The hash is named.
#[verifier::external_body]
pub(crate) fn hash_bytes(bytes: &Vec<u8>) -> (r: u64)
    ensures
        r == xxh3(bytes@),
{
    xxhash_rust::xxh3::xxh3_64(bytes)
}

/// `fp` is the hash of bytes that `eval` may lead to for the plan.
pub open spec fn may_hash<E: Fn(&Vec<Step>, Complex64) -> Complex64>(
    eval: E,
    plan: Seq<Step>,
    fp: u64,
) -> bool {
    exists|bytes: Seq<u8>| #[trigger] may_encode(eval, plan, bytes) && fp == xxh3(bytes)
}

/// The 64-bit fingerprint of an expression: the hash of its values at the sample points.
pub fn fingerprint<E: Fn(&Vec<Step>, Complex64) -> Complex64>(
    interner: &Interner,
    node: u32,
    eval: &E,
) -> (fp: u64)
    requires
        interner.wf(),
        node < interner.nodes().len(),
        evaluator(*eval),
    ensures
        may_hash(*eval, plan_at(interner.nodes(), node), fp),
{
    let bytes = sample_bytes(interner, node, eval);
    hash_bytes(&bytes)
}

/// From fingerprints to the nodes that share them. Nodes in one bucket are candidates for being
/// equal, no more.
pub struct FingerprintIndex {
    pub buckets: FxHashMap<u64, Vec<u32>>,
}

impl FingerprintIndex {
    /// The nodes with the fingerprint `fp`, in the order in which they came.
    pub open spec fn bucket(self, fp: u64) -> Seq<u32> {
        if self.buckets@.contains_key(fp) {
            self.buckets@[fp]@
        } else {
            Seq::empty()
        }
    }

    pub fn new() -> (r: Self)
        ensures
            forall|fp: u64| #[trigger] r.bucket(fp) == Seq::<u32>::empty(),
    {
        FingerprintIndex { buckets: fx_new() }
    }

    /// Puts `node` into the bucket of `fp`.
    pub fn insert_with(&mut self, node: u32, fp: u64)
        ensures
            final(self).bucket(fp) == old(self).bucket(fp).push(node),
            forall|k: u64| k != fp ==> #[trigger] final(self).bucket(k) == old(self).bucket(k),
    {
        let mut bucket = match fx_remove(&mut self.buckets, &fp) {
            Some(bucket) => bucket,
            None => Vec::new(),
        };
        bucket.push(node);
        fx_insert(&mut self.buckets, fp, bucket);
    }

    /// Puts `node` into the bucket of its fingerprint, which is returned.
    pub fn insert<E: Fn(&Vec<Step>, Complex64) -> Complex64>(
        &mut self,
        interner: &Interner,
        node: u32,
        eval: &E,
    ) -> (fp: u64)
        requires
            interner.wf(),
            node < interner.nodes().len(),
            evaluator(*eval),
        ensures
            may_hash(*eval, plan_at(interner.nodes(), node), fp),
            final(self).bucket(fp) == old(self).bucket(fp).push(node),
            forall|k: u64| k != fp ==> #[trigger] final(self).bucket(k) == old(self).bucket(k),
    {
        let fp = fingerprint(interner, node, eval);
        self.insert_with(node, fp);
        fp
    }

    /// The nodes with the fingerprint `fp`, in the order in which they came.
    pub fn candidates(&self, fp: u64) -> (r: &[u32])
        ensures
            r@ == self.bucket(fp),
    {
        match fx_get(&self.buckets, &fp) {
            Some(bucket) => bucket.as_slice(),
            None => &[],
        }
    }
}

impl Default for FingerprintIndex {
    fn default() -> (r: Self)
        ensures
            forall|fp: u64| #[trigger] r.bucket(fp) == Seq::<u32>::empty(),
    {
        Self::new()
    }
}

} // verus!
