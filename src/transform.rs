use vstd::prelude::*;
use vstd::arithmetic::div_mod::*;
use rayon::iter::ParallelIterator;
use rayon::slice::ParallelSliceMut;
use crate::field::{
    GFp2, P, sub_mod, mul_gfp2, p_int, is_valid, ext_mul, ext_neg, ext_one, ext_pow, phi,
    neg_exponent, lemma_mul_assoc, lemma_mul_one, lemma_inverse_law,
};

verus! {

/// Chunk size per logical CPU, in elements.
pub const BASE_CHUNK_SIZE: usize = 1024;

/// Target chunk size, in elements.
pub const TARGET_CHUNK_SIZE: usize = 262144;

/// Smallest chunk handed to a worker, in elements.
pub const MIN_CHUNK_SIZE: usize = 4096;

/// The sign pass on one element: negated at an odd position, kept at an even one.
pub open spec fn haar_elem(i: int, v: (int, int)) -> (int, int) {
    if i % 2 == 1 {
        ext_neg(v)
    } else {
        v
    }
}

/// `t` is `s` after the sign pass.
pub open spec fn is_haar_of(s: Seq<GFp2>, t: Seq<GFp2>) -> bool {
    &&& t.len() == s.len()
    &&& forall|i: int| 0 <= i < s.len() ==> #[trigger] t[i]@ == haar_elem(i, s[i]@)
}

/// `t` is `s` with every element multiplied by `f`.
pub open spec fn is_scaled_of(s: Seq<GFp2>, t: Seq<GFp2>, f: (int, int)) -> bool {
    &&& t.len() == s.len()
    &&& forall|i: int| 0 <= i < s.len() ==> #[trigger] t[i]@ == ext_mul(s[i]@, f)
}

/// Every element of `s` has both components in [0, p).
pub open spec fn all_valid(s: Seq<GFp2>) -> bool {
    forall|i: int| 0 <= i < s.len() ==> is_valid(#[trigger] s[i]@)
}

/// max(min(T, T·c), MIN) for c CPUs.
pub open spec fn chunk_size_spec(cpus: int) -> int {
    let scaled = if TARGET_CHUNK_SIZE * cpus < TARGET_CHUNK_SIZE {
        TARGET_CHUNK_SIZE * cpus
    } else {
        TARGET_CHUNK_SIZE as int
    };
    if scaled < MIN_CHUNK_SIZE {
        MIN_CHUNK_SIZE as int
    } else {
        scaled
    }
}

/// Relies on `num_cpus::get`: the number of logical CPUs available to this
/// process, documented to be at least 1. Beyond that it depends on the machine.
#[verifier::external_body]
fn cpu_count() -> (r: usize)
    ensures
        r >= 1,
{
    num_cpus::get()
}

/// The chunk size for `cpu_count` CPUs: the target size, scaled by the CPU
/// count, capped at the target and raised to the minimum.
pub fn chunk_size_for(cpu_count: usize) -> (r: usize)
    ensures
        r as int == chunk_size_spec(cpu_count as int),
        r > 0,
        r % 2 == 0,
{
    proof {
        if cpu_count > 0 {
            assert(TARGET_CHUNK_SIZE * cpu_count >= TARGET_CHUNK_SIZE) by (nonlinear_arith)
                requires
                    cpu_count > 0,
            ;
        } else {
            assert(TARGET_CHUNK_SIZE * cpu_count == 0);
        }
    }
    // min(T, T·c) is 0 for no CPU and T for any positive count.
    let scaled: usize = if cpu_count == 0 {
        0
    } else {
        TARGET_CHUNK_SIZE
    };
    if scaled < MIN_CHUNK_SIZE {
        MIN_CHUNK_SIZE
    } else {
        scaled
    }
}

/// The chunk size for the CPUs of this machine: with at least one CPU this
/// is always the target size, so every call returns the same value.
pub fn get_chunk_size() -> (r: usize)
    ensures
        r == TARGET_CHUNK_SIZE,
{
    chunk_size_for(cpu_count())
}

/// Negates the elements at odd positions of `chunk`.
fn negate_odd_positions(chunk: &mut [GFp2])
    ensures
        is_haar_of(old(chunk)@, final(chunk)@),
{
    let n = chunk.len();
    let mut i: usize = 0;
    while i < n
        invariant
            n == chunk@.len(),
            chunk@.len() == old(chunk)@.len(),
            0 <= i <= n,
            forall|j: int| 0 <= j < i ==> #[trigger] chunk@[j]@ == haar_elem(j, old(chunk)@[j]@),
            forall|j: int| i <= j < n ==> #[trigger] chunk@[j] == old(chunk)@[j],
        decreases n - i,
    {
        proof {
            assert(i & 1usize == i % 2) by (bit_vector);
        }
        if (i & 1) == 1 {
            let v = chunk[i];
            chunk[i] = GFp2 { a: sub_mod(0, v.a), b: sub_mod(0, v.b) };
        }
        i += 1;
    }
}

/// Multiplies every element of `chunk` by `factor`.
fn multiply_all(chunk: &mut [GFp2], factor: &GFp2)
    ensures
        is_scaled_of(old(chunk)@, final(chunk)@, factor@),
{
    let n = chunk.len();
    let mut i: usize = 0;
    while i < n
        invariant
            n == chunk@.len(),
            chunk@.len() == old(chunk)@.len(),
            0 <= i <= n,
            forall|j: int| 0 <= j < i ==> #[trigger] chunk@[j]@ == ext_mul(old(chunk)@[j]@, factor@),
            forall|j: int| i <= j < n ==> #[trigger] chunk@[j] == old(chunk)@[j],
        decreases n - i,
    {
        let v = chunk[i];
        chunk[i] = mul_gfp2(&v, factor);
        i += 1;
    }
}

/// The element-wise work of one pass.
enum ChunkOp {
    NegateOdd,
    Multiply(GFp2),
}

/// What `op` does to element `v` at position `i` of its chunk.
spec fn op_elem(op: ChunkOp, i: int, v: (int, int)) -> (int, int) {
    match op {
        ChunkOp::NegateOdd => haar_elem(i, v),
        ChunkOp::Multiply(f) => ext_mul(v, f@),
    }
}

fn apply_chunk_op(chunk: &mut [GFp2], op: &ChunkOp)
    ensures
        final(chunk)@.len() == old(chunk)@.len(),
        forall|i: int|
            0 <= i < old(chunk)@.len() ==> #[trigger] final(chunk)@[i]@ == op_elem(
                *op,
                i,
                old(chunk)@[i]@,
            ),
{
    match op {
        ChunkOp::NegateOdd => negate_odd_positions(chunk),
        ChunkOp::Multiply(f) => multiply_all(chunk, f),
    }
}

/// Relies on rayon's `par_chunks_mut` and `for_each`: the slice is cut into
/// consecutive chunks of `size` elements (the last may be shorter), each
/// handed once to the closure; the call returns when all are done. So element
/// `i` sits at position `i % size` of its chunk.
#[verifier::external_body]
fn par_for_each_chunk(data: &mut [GFp2], size: usize, op: &ChunkOp)
    requires
        size > 0,
    ensures
        final(data)@.len() == old(data)@.len(),
        forall|i: int|
            0 <= i < old(data)@.len() ==> #[trigger] final(data)@[i]@ == op_elem(
                *op,
                i % (size as int),
                old(data)@[i]@,
            ),
{
    data.par_chunks_mut(size).for_each(|chunk| apply_chunk_op(chunk, op));
}

/// Negates every element at an odd (global) index, in parallel chunks.
pub fn binary_haar_transform(data: &mut [GFp2])
    ensures
        is_haar_of(old(data)@, final(data)@),
{
    let size = get_chunk_size();
    par_for_each_chunk(data, size, &ChunkOp::NegateOdd);
    proof {
        assert forall|i: int| 0 <= i < old(data)@.len() implies #[trigger] final(data)@[i]@
            == haar_elem(i, old(data)@[i]@) by {
            lemma_mod_mod(i, 2, (size / 2) as int);
            assert(2 * (size / 2) as int == size as int);
            assert(final(data)@[i]@ == op_elem(ChunkOp::NegateOdd, i % (size as int), old(data)@[i]@));
        }
    }
}

/// Multiplies every element by `phi_k`, in parallel chunks. Returns `None`,
/// having done nothing, on an empty slice.
pub fn apply_phi_transform(data: &mut [GFp2], phi_k: &GFp2) -> (r: Option<()>)
    ensures
        r.is_none() <==> old(data)@.len() == 0,
        is_scaled_of(old(data)@, final(data)@, phi_k@),
{
    if data.len() == 0 {
        return None;
    }
    let size = get_chunk_size();
    par_for_each_chunk(data, size, &ChunkOp::Multiply(*phi_k));
    Some(())
}

pub proof fn lemma_neg_neg_scalar(a: int)
    requires
        0 <= a < p_int(),
    ensures
        (-((-a) % p_int())) % p_int() == a,
{
    let p = p_int();
    if a == 0 {
        lemma_small_mod(0, P as nat);
    } else {
        lemma_mod_add_multiples_vanish(-a, p);
        lemma_small_mod((p - a) as nat, P as nat);
        lemma_mod_add_multiples_vanish(a - p, p);
        lemma_small_mod(a as nat, P as nat);
    }
}

/// Negation is its own inverse on valid elements.
pub proof fn lemma_neg_neg(x: (int, int))
    requires
        is_valid(x),
    ensures
        ext_neg(ext_neg(x)) == x,
        is_valid(ext_neg(x)),
{
    lemma_neg_neg_scalar(x.0);
    lemma_neg_neg_scalar(x.1);
}

/// The sign pass is its own inverse on valid elements.
pub proof fn lemma_haar_involution(s: Seq<GFp2>, t: Seq<GFp2>, u: Seq<GFp2>)
    requires
        all_valid(s),
        is_haar_of(s, t),
        is_haar_of(t, u),
    ensures
        u == s,
{
    assert forall|i: int| 0 <= i < s.len() implies u[i] == s[i] by {
        assert(t[i]@ == haar_elem(i, s[i]@));
        assert(u[i]@ == haar_elem(i, t[i]@));
        if i % 2 == 1 {
            lemma_neg_neg(s[i]@);
        }
    }
    assert(u =~= s);
}

/// Multiplying by f and then by g, where f · g = 1, gives back every valid element.
pub proof fn lemma_scale_round_trip(
    s: Seq<GFp2>,
    t: Seq<GFp2>,
    u: Seq<GFp2>,
    f: (int, int),
    g: (int, int),
)
    requires
        all_valid(s),
        ext_mul(f, g) == ext_one(),
        is_scaled_of(s, t, f),
        is_scaled_of(t, u, g),
    ensures
        u == s,
{
    assert forall|i: int| 0 <= i < s.len() implies u[i] == s[i] by {
        assert(t[i]@ == ext_mul(s[i]@, f));
        assert(u[i]@ == ext_mul(t[i]@, g));
        lemma_mul_assoc(s[i]@, f, g);
        lemma_mul_one(s[i]@);
    }
    assert(u =~= s);
}

/// Multiplying by φ^k and then by φ^(-k) gives back every valid sequence.
pub proof fn lemma_phi_round_trip(key: u32, s: Seq<GFp2>, t: Seq<GFp2>, u: Seq<GFp2>)
    requires
        all_valid(s),
        is_scaled_of(s, t, ext_pow(phi(), key as nat)),
        is_scaled_of(t, u, ext_pow(phi(), neg_exponent(key as int) as nat)),
    ensures
        u == s,
{
    lemma_inverse_law(key);
    lemma_scale_round_trip(
        s,
        t,
        u,
        ext_pow(phi(), key as nat),
        ext_pow(phi(), neg_exponent(key as int) as nat),
    );
}

} // verus!
