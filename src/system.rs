use vstd::prelude::*;
use vstd::arithmetic::div_mod::*;
use vstd::arithmetic::mul::*;
use vstd::arithmetic::power2::*;
use vstd::bits::*;
use vstd::slice::slice_to_vec;
use vstd::layout::unsigned_int_max_values;
use crate::field::{
    GFp2, PHI_A, PHI_B, exp_phi, exp_phi_inverse, to_gfp2, mul_gfp2, sub_mod, add_mod, p_int,
    is_valid, ext_mul, ext_neg, ext_add, ext_one, ext_zero, ext_pow, phi, neg_exponent,
    lemma_inverse_law, lemma_mul_assoc, lemma_mul_one,
};
use crate::transform::{
    lemma_neg_neg, lemma_neg_neg_scalar, binary_haar_transform, apply_phi_transform, haar_elem, is_scaled_of,
};

verus! {

/// The keyed frame of reference: φ^k and its inverse φ^(-k).
#[derive(Debug)]
pub struct ForeSystem {
    phi_k: GFp2,
    phi_neg_k: GFp2,
}

/// The frequency-domain image of byte `byte` at index `i` under factor `f`.
pub open spec fn frequency_elem(i: int, byte: u8, f: (int, int)) -> (int, int) {
    ext_mul(haar_elem(i, (byte as int, 0)), f)
}

/// The value written at index `j` by an edit at `start` with partner
/// `start + half`, of a sequence of length `len`; `None` where nothing is written.
pub open spec fn edit_at(j: int, start: int, half: int, len: int, t: (int, int)) -> Option<
    (int, int),
> {
    if start < len && start + half < len && j == start + half {
        Some(ext_neg(t))
    } else if start < len && j == start {
        Some(t)
    } else {
        None
    }
}

/// Adjacent coefficients at `pos` on the level of span `span` cancel out.
pub open spec fn pair_cancels(s: Seq<GFp2>, span: int, pos: int) -> bool {
    let start = pos * span;
    let half = span / 2;
    start + half < s.len() ==> ext_add(s[start]@, s[start + half]@) == ext_zero()
}

/// Every dyadic level 2^l <= len and every block on it has its pair cancel out.
pub open spec fn relationships_hold(s: Seq<GFp2>) -> bool {
    forall|l: nat, pos: int|
        pow2(l) <= s.len() && 0 <= pos < (s.len() as int) / (pow2(l) as int) ==> #[trigger] pair_cancels(
            s,
            pow2(l) as int,
            pos,
        )
}

/// The value an aligned element decodes to at index `i`.
pub open spec fn decoded_value(i: int, v: (int, int)) -> int {
    if i % 2 == 1 {
        (-v.0) % p_int()
    } else {
        v.0
    }
}

/// An aligned element decodes to a character when its extension part is zero
/// and its value is ASCII.
pub open spec fn decodes(i: int, v: (int, int)) -> bool {
    v.1 == 0 && decoded_value(i, v) < 128
}

/// The text read back from aligned elements `s`, in order.
pub open spec fn decode_text(s: Seq<(int, int)>) -> Seq<char>
    decreases s.len(),
{
    if s.len() == 0 {
        Seq::empty()
    } else {
        let i = s.len() - 1;
        let prefix = decode_text(s.drop_last());
        if decodes(i, s[i]) {
            prefix.push(((decoded_value(i, s[i]) as u8) as char))
        } else {
            prefix
        }
    }
}

/// Relies on `String::push`: appends one character.
#[verifier::external_body]
fn push_char(s: &mut String, c: char)
    ensures
        final(s)@ == old(s)@.push(c),
{
    s.push(c);
}

impl Clone for ForeSystem {
    fn clone(&self) -> (r: Self)
        ensures
            r == *self,
    {
        proof {
            use_type_invariant(self);
        }
        ForeSystem { phi_k: self.phi_k, phi_neg_k: self.phi_neg_k }
    }
}

impl ForeSystem {
    #[verifier::type_invariant]
    spec fn inv(&self) -> bool {
        &&& is_valid(self.phi_k@)
        &&& is_valid(self.phi_neg_k@)
        &&& ext_mul(self.phi_k@, self.phi_neg_k@) == ext_one()
    }

    /// φ^k.
    pub closed spec fn key_factor(&self) -> (int, int) {
        self.phi_k@
    }

    /// φ^(-k).
    pub closed spec fn inverse_factor(&self) -> (int, int) {
        self.phi_neg_k@
    }

    /// Derives φ^key and φ^(-key).
    pub fn new(key: u32) -> (r: Self)
        ensures
            r.key_factor() == ext_pow(phi(), key as nat),
            r.inverse_factor() == ext_pow(phi(), neg_exponent(key as int) as nat),
    {
        let phi_k = exp_phi(GFp2 { a: PHI_A, b: PHI_B }, key);
        let phi_neg_k = exp_phi_inverse(GFp2 { a: PHI_A, b: PHI_B }, key);
        proof {
            lemma_inverse_law(key);
        }
        ForeSystem { phi_k, phi_neg_k }
    }

    /// The sign pass, then multiplication by φ^k, in place.
    pub fn to_frequency_domain(&self, data: &mut [GFp2])
        ensures
            final(data)@.len() == old(data)@.len(),
            forall|i: int|
                0 <= i < old(data)@.len() ==> #[trigger] final(data)@[i]@ == ext_mul(
                    haar_elem(i, old(data)@[i]@),
                    self.key_factor(),
                ),
    {
        binary_haar_transform(data);
        let ghost mid = data@;
        let _ = apply_phi_transform(data, &self.phi_k);
        proof {
            assert forall|i: int| 0 <= i < old(data)@.len() implies #[trigger] final(data)@[i]@
                == ext_mul(haar_elem(i, old(data)@[i]@), self.key_factor()) by {
                assert(mid[i]@ == haar_elem(i, old(data)@[i]@));
            }
        }
    }

    /// Writes `new_value` · φ^k at `start = pos · 2^level` and its negation at
    /// `start + 2^level / 2`, each only where it lies inside `data`; a start
    /// past the end leaves `data` as it is.
    pub fn edit_frequency(&self, data: &mut [GFp2], level: usize, pos: usize, new_value: GFp2)
        ensures
            final(data)@.len() == old(data)@.len(),
            forall|j: int|
                0 <= j < old(data)@.len() ==> #[trigger] final(data)@[j]@ == match edit_at(
                    j,
                    pos * pow2(level as nat),
                    (pow2(level as nat) / 2) as int,
                    old(data)@.len() as int,
                    ext_mul(new_value@, self.key_factor()),
                ) {
                    Some(v) => v,
                    None => old(data)@[j]@,
                },
    {
        let len = data.len();
        let bits = usize::BITS as usize;
        let ghost span = pow2(level as nat);
        let ghost half = span / 2;
        proof {
            unsigned_int_max_values();
            lemma_pow2_pos(level as nat);
            if level >= 1 {
                lemma_pow2_unfold(level as nat);
            }
            if level >= bits {
                if level > bits {
                    lemma_pow2_strictly_increases(bits as nat, level as nat);
                }
                if level > bits + 1 {
                    lemma_pow2_strictly_increases(bits as nat, (level - 1) as nat);
                }
            }
        }
        // The start, where it fits in a usize; past that it lies beyond every index.
        let start: usize = if level < bits {
            proof {
                lemma_usize_pow2_no_overflow(level as nat);
                lemma_usize_shl_is_mul(1, level);
            }
            match pos.checked_mul(1usize << level) {
                Some(s) => s,
                None => {
                    return ;
                },
            }
        } else if pos == 0 {
            0
        } else {
            proof {
                lemma_mul_inequality(1, pos as int, span as int);
            }
            return ;
        };
        proof {
            assert(start as int == pos * span) by (nonlinear_arith)
                requires
                    level >= bits ==> pos == 0 && start == 0,
                    level < bits ==> start as int == pos * span,
            ;
        }
        if start < len {
            let transformed = mul_gfp2(&new_value, &self.phi_k);
            data[start] = transformed;
            // The partner's offset, 2^level / 2, is past every index once the
            // level exceeds the width of usize.
            if level <= bits {
                let offset: usize = if level == 0 {
                    0
                } else {
                    proof {
                        lemma_usize_pow2_no_overflow((level - 1) as nat);
                        lemma_usize_shl_is_mul(1, (level - 1) as usize);
                    }
                    1usize << (level - 1)
                };
                proof {
                    if level == 0 {
                        lemma2_to64();
                    }
                    assert(offset as int == half);
                }
                if offset < len - start {
                    data[start + offset] = GFp2 {
                        a: sub_mod(0, transformed.a),
                        b: sub_mod(0, transformed.b),
                    };
                }
            }
        }
    }

    /// Multiplies by φ^(-k) and reads back, in order, each element whose
    /// extension part is zero and whose value (negated at odd indices) is ASCII.
    pub fn reconstruct(&self, data: &[GFp2]) -> (r: String)
        ensures
            exists|aligned: Seq<GFp2>|
                #![trigger is_scaled_of(data@, aligned, self.inverse_factor())]
                is_scaled_of(data@, aligned, self.inverse_factor()) && r@ == decode_text(
                    aligned.map_values(|v: GFp2| v@),
                ),
    {
        let mut result = String::new();
        let mut aligned = slice_to_vec(data);
        let ghost before = aligned@;
        let _ = apply_phi_transform(aligned.as_mut_slice(), &self.phi_neg_k);
        let ghost al = aligned@;
        proof {
            assert(before == data@);
            assert(is_scaled_of(data@, al, self.inverse_factor()));
        }
        let n = aligned.len();
        let mut i: usize = 0;
        while i < n
            invariant
                n == aligned@.len(),
                aligned@ == al,
                0 <= i <= n,
                result@ == decode_text(al.take(i as int).map_values(|v: GFp2| v@)),
            decreases n - i,
        {
            let v = aligned[i];
            proof {
                assert(i & 1usize == i % 2) by (bit_vector);
                let s = al.take(i as int + 1).map_values(|v: GFp2| v@);
                assert(s.drop_last() =~= al.take(i as int).map_values(|v: GFp2| v@));
                assert(s[i as int] == v@);
            }
            if v.b == 0 {
                let val = if (i & 1) == 1 {
                    sub_mod(0, v.a)
                } else {
                    v.a
                };
                if val < 128 {
                    push_char(&mut result, val as u8 as char);
                }
            }
            i += 1;
        }
        proof {
            assert(al.take(n as int) =~= al);
        }
        result
    }

    /// Lifts each byte into the field and takes it to the frequency domain.
    pub fn process_data(&self, data: &[u8]) -> (r: Vec<GFp2>)
        ensures
            r@.len() == data@.len(),
            forall|i: int|
                0 <= i < data@.len() ==> #[trigger] r@[i]@ == frequency_elem(
                    i,
                    data@[i],
                    self.key_factor(),
                ),
    {
        let mut result: Vec<GFp2> = Vec::new();
        let n = data.len();
        let mut i: usize = 0;
        while i < n
            invariant
                n == data@.len(),
                0 <= i <= n,
                result@.len() == i,
                forall|j: int| 0 <= j < i ==> #[trigger] result@[j]@ == (data@[j] as int, 0int),
            decreases n - i,
        {
            let e = to_gfp2(data[i] as u32);
            proof {
                lemma_small_mod(data@[i as int] as nat, p_int() as nat);
            }
            result.push(e);
            i += 1;
        }
        let ghost lifted = result@;
        self.to_frequency_domain(result.as_mut_slice());
        proof {
            assert forall|i: int| 0 <= i < data@.len() implies #[trigger] result@[i]@
                == frequency_elem(i, data@[i], self.key_factor()) by {
                assert(lifted[i]@ == (data@[i] as int, 0int));
            }
        }
        result
    }
    /// Checks, at every level l with 2^l <= len and every block of span 2^l,
    /// that the block's first element and the one half a span later sum to zero.
    pub fn verify_relationships(&self, data: &[GFp2]) -> (r: bool)
        ensures
            r == relationships_hold(data@),
    {
        let n = data.len();
        let mut level: usize = 0;
        let bits = usize::BITS as usize;
        while level < bits
            invariant
                n == data@.len(),
                bits == usize::BITS,
                0 <= level <= bits,
                forall|l: nat, pos: int|
                    l < level && pow2(l) <= n && 0 <= pos < (n as int) / (pow2(l) as int)
                        ==> #[trigger] pair_cancels(data@, pow2(l) as int, pos),
            decreases bits - level,
        {
            proof {
                lemma_usize_pow2_no_overflow(level as nat);
                lemma_usize_shl_is_mul(1, level);
                lemma_pow2_pos(level as nat);
            }
            let span: usize = 1usize << level;
            if span > n {
                proof {
                    assert forall|l: nat, pos: int|
                        pow2(l) <= n && 0 <= pos < (n as int) / (pow2(l) as int) implies #[trigger] pair_cancels(
                        data@,
                        pow2(l) as int,
                        pos,
                    ) by {
                        if l > level {
                            lemma_pow2_strictly_increases(level as nat, l);
                        }
                    }
                }
                return true;
            }
            let half = span / 2;
            let blocks = n / span;
            let mut pos: usize = 0;
            while pos < blocks
                invariant
                    n == data@.len(),
                    span as int == pow2(level as nat),
                    0 < span <= n,
                    half == span / 2,
                    blocks == n / span,
                    0 <= pos <= blocks,
                    forall|q: int| 0 <= q < pos ==> #[trigger] pair_cancels(data@, span as int, q),
                decreases blocks - pos,
            {
                proof {
                    lemma_mul_inequality(pos as int + 1, blocks as int, span as int);
                    lemma_fundamental_div_mod(n as int, span as int);
                    lemma_mod_pos_bound(n as int, span as int);
                    lemma_mul_is_distributive_add_other_way(span as int, pos as int, 1);
                    lemma_mul_is_commutative(span as int, blocks as int);
                }
                let start = pos * span;
                if start + half < n {
                    let first = data[start];
                    let second = data[start + half];
                    let sum = add_mod(first.a, second.a);
                    let sum_b = add_mod(first.b, second.b);
                    if sum != 0 || sum_b != 0 {
                        proof {
                            assert(!pair_cancels(data@, pow2(level as nat) as int, pos as int));
                        }
                        return false;
                    }
                }
                pos += 1;
            }
            proof {
                assert forall|l: nat, q: int|
                    l < level + 1 && pow2(l) <= n && 0 <= q < (n as int) / (pow2(l) as int) implies #[trigger] pair_cancels(
                    data@,
                    pow2(l) as int,
                    q,
                ) by {
                    if l == level {
                        assert(pair_cancels(data@, span as int, q));
                    }
                }
            }
            level += 1;
        }
        proof {
            unsigned_int_max_values();
            assert forall|l: nat, pos: int|
                pow2(l) <= n && 0 <= pos < (n as int) / (pow2(l) as int) implies #[trigger] pair_cancels(
                data@,
                pow2(l) as int,
                pos,
            ) by {
                if l >= bits {
                    if l > bits {
                        lemma_pow2_strictly_increases(bits as nat, l);
                    }
                }
            }
        }
        true
    }
}


/// Inputs of one length that differ somewhere are taken to frequency-domain
/// sequences that differ somewhere, for every key.
pub proof fn lemma_distinct_inputs(key: u32, x: Seq<u8>, y: Seq<u8>)
    requires
        x.len() == y.len(),
        x != y,
    ensures
        exists|i: int|
            0 <= i < x.len() && #[trigger] frequency_elem(i, x[i], ext_pow(phi(), key as nat))
                != frequency_elem(i, y[i], ext_pow(phi(), key as nat)),
{
    let f = ext_pow(phi(), key as nat);
    let g = ext_pow(phi(), neg_exponent(key as int) as nat);
    if forall|i: int| 0 <= i < x.len() ==> x[i] == y[i] {
        assert(x =~= y);
    }
    let i = choose|i: int| 0 <= i < x.len() && x[i] != y[i];
    let hx = haar_elem(i, (x[i] as int, 0));
    let hy = haar_elem(i, (y[i] as int, 0));
    lemma_inverse_law(key);
    lemma_mul_assoc(hx, f, g);
    lemma_mul_assoc(hy, f, g);
    lemma_mul_one(hx);
    lemma_mul_one(hy);
    if i % 2 == 1 {
        lemma_neg_neg((x[i] as int, 0));
        lemma_neg_neg((y[i] as int, 0));
    }
    assert(frequency_elem(i, x[i], f) != frequency_elem(i, y[i], f));
}

proof fn lemma_decode_all(s: Seq<(int, int)>, bytes: Seq<u8>)
    requires
        s.len() == bytes.len(),
        forall|i: int|
            0 <= i < s.len() ==> #[trigger] decodes(i, s[i]) && decoded_value(i, s[i])
                == bytes[i] as int,
    ensures
        decode_text(s) == bytes.map_values(|b: u8| b as char),
    decreases s.len(),
{
    if s.len() > 0 {
        let i = s.len() - 1;
        lemma_decode_all(s.drop_last(), bytes.drop_last());
        assert(decodes(i, s[i]));
        assert(bytes.map_values(|b: u8| b as char) =~= bytes.drop_last().map_values(
            |b: u8| b as char,
        ).push(bytes[i] as char));
    } else {
        assert(bytes.map_values(|b: u8| b as char) =~= Seq::<char>::empty());
    }
}

/// For every key, bytes below 128 taken to the frequency domain and aligned
/// back with the inverse factor decode to the same text.
pub proof fn lemma_round_trip(key: u32, bytes: Seq<u8>, freq: Seq<GFp2>, aligned: Seq<GFp2>)
    requires
        forall|i: int| 0 <= i < bytes.len() ==> #[trigger] bytes[i] < 128,
        freq.len() == bytes.len(),
        forall|i: int|
            0 <= i < bytes.len() ==> #[trigger] freq[i]@ == frequency_elem(
                i,
                bytes[i],
                ext_pow(phi(), key as nat),
            ),
        is_scaled_of(freq, aligned, ext_pow(phi(), neg_exponent(key as int) as nat)),
    ensures
        decode_text(aligned.map_values(|v: GFp2| v@)) == bytes.map_values(|b: u8| b as char),
{
    let f = ext_pow(phi(), key as nat);
    let g = ext_pow(phi(), neg_exponent(key as int) as nat);
    let s = aligned.map_values(|v: GFp2| v@);
    lemma_inverse_law(key);
    assert forall|i: int| 0 <= i < s.len() implies #[trigger] decodes(i, s[i]) && decoded_value(
        i,
        s[i],
    ) == bytes[i] as int by {
        let h = haar_elem(i, (bytes[i] as int, 0));
        assert(aligned[i]@ == ext_mul(freq[i]@, g));
        lemma_mul_assoc(h, f, g);
        lemma_neg_neg((bytes[i] as int, 0));
        lemma_mul_one(h);
        if i % 2 == 1 {
            lemma_neg_neg_scalar(bytes[i] as int);
            assert(h.1 == 0);
        }
    }
    lemma_decode_all(s, bytes);
}

} // verus!
