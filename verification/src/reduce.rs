use vstd::prelude::*;

use intbits::Bits;
use itertools::Itertools;

verus! {

// ---------------------------------------------------------------------------
// Trusted views of the outside bit and combination helpers
// ---------------------------------------------------------------------------
/// Relies on intbits' `Bits::bit` for `u64`: the bit at `i` is
/// `n >> i & 1 != 0`; the call panics only for an index past the width.
#[verifier::external_body]
fn u64_bit(n: u64, i: u32) -> (b: bool)
    requires
        i < 64,
    ensures
        b == ((n >> (i as u64)) & 1u64 == 1u64),
{
    n.bit(i)
}

/// Relies on intbits' `Bits::set_bit` for `u64`:
/// `*v = *v & !(1 << i) | (bit as u64) << i`.
#[verifier::external_body]
fn u64_set_bit(v: &mut u64, i: u8, bit: bool)
    requires
        i < 64,
    ensures
        *final(v) == (*old(v) & !(1u64 << (i as u64))) | ((if bit {
            1u64
        } else {
            0u64
        }) << (i as u64)),
{
    v.set_bit(i, bit);
}

/// All `k`-element combinations of a sequence, keeping order, each
/// combination in order of position, combinations in lexicographic order
/// by position.
pub open spec fn spec_combos(s: Seq<u8>, k: nat) -> Seq<Seq<u8>>
    decreases s.len(), k,
{
    if k == 0 {
        seq![Seq::<u8>::empty()]
    } else if s.len() == 0 {
        Seq::empty()
    } else {
        spec_combos(s.drop_first(), (k - 1) as nat).map_values(|c: Seq<u8>| seq![s[0]] + c)
            + spec_combos(s.drop_first(), k)
    }
}

/// Relies on itertools' `Itertools::combinations`: it yields every
/// `k`-element combination of the input exactly once, in lexicographic
/// order by position, elements in input order.
#[verifier::external_body]
fn combinations_u8(base: &Vec<u8>, k: usize) -> (r: Vec<Vec<u8>>)
    ensures
        r.deep_view() == spec_combos(base@, k as nat),
{
    base.iter().cloned().combinations(k).collect()
}

/// Every element of a combination comes from the underlying sequence.
pub proof fn lemma_combos_elems(s: Seq<u8>, k: nat)
    ensures
        forall|ci: int, j: int|
            0 <= ci < spec_combos(s, k).len() && 0 <= j < spec_combos(s, k)[ci].len()
                ==> s.contains(#[trigger] spec_combos(s, k)[ci][j]),
    decreases s.len(), k,
{
    if k == 0 {
    } else if s.len() == 0 {
    } else {
        let s2 = s.drop_first();
        lemma_combos_elems(s2, (k - 1) as nat);
        lemma_combos_elems(s2, k);
        let first = spec_combos(s2, (k - 1) as nat).map_values(|c: Seq<u8>| seq![s[0]] + c);
        let second = spec_combos(s2, k);
        assert forall|ci: int, j: int|
            0 <= ci < spec_combos(s, k).len() && 0 <= j < spec_combos(s, k)[ci].len() implies s.contains(
            #[trigger] spec_combos(s, k)[ci][j],
        ) by {
            assert forall|x: u8| s2.contains(x) implies s.contains(x) by {
                let m = choose|m: int| 0 <= m < s2.len() && s2[m] == x;
                assert(s[m + 1] == x);
            }
            if ci < first.len() {
                let c0 = spec_combos(s2, (k - 1) as nat)[ci];
                assert(spec_combos(s, k)[ci] == seq![s[0]] + c0);
                if j == 0 {
                    assert(spec_combos(s, k)[ci][0] == s[0]);
                    assert(s.contains(s[0]));
                } else {
                    assert(spec_combos(s, k)[ci][j] == c0[j - 1]);
                    assert(s2.contains(c0[j - 1]));
                }
            } else {
                assert(spec_combos(s, k)[ci] == second[ci - first.len()]);
                assert(s2.contains(second[ci - first.len()][j]));
            }
        }
    }
}

pub open spec fn pow2(e: nat) -> nat
    decreases e,
{
    if e == 0 {
        1
    } else {
        2 * pow2((e - 1) as nat)
    }
}

/// A bound on how many combinations a sequence has.
pub proof fn lemma_combos_len(s: Seq<u8>, k: nat)
    ensures
        spec_combos(s, k).len() <= pow2(s.len()),
    decreases s.len(), k,
{
    if k == 0 {
        assert(pow2(s.len()) >= 1) by {
            lemma_pow2_pos(s.len());
        }
    } else if s.len() == 0 {
    } else {
        let s2 = s.drop_first();
        lemma_combos_len(s2, (k - 1) as nat);
        lemma_combos_len(s2, k);
    }
}

pub proof fn lemma_pow2_pos(e: nat)
    ensures
        pow2(e) >= 1,
    decreases e,
{
    if e > 0 {
        lemma_pow2_pos((e - 1) as nat);
    }
}

// ---------------------------------------------------------------------------
// Population count
// ---------------------------------------------------------------------------
/// How many of the lowest `k` bits of `n` are set.
pub open spec fn spec_pop64(n: u64, k: nat) -> nat
    decreases k,
{
    if k == 0 {
        0
    } else {
        spec_pop64(n, (k - 1) as nat) + (if (n >> (((k - 1) as nat) as u64)) & 1u64 == 1u64 {
            1nat
        } else {
            0nat
        })
    }
}

/// The Hamming weight of a 64-bit word.
pub fn bit_pop(n: u64) -> (r: u8)
    ensures
        r as nat == spec_pop64(n, 64),
        r <= 64,
{
    let mut s: u8 = 0;
    let mut b: u32 = 0;
    while b < 64
        invariant
            b <= 64,
            s as nat == spec_pop64(n, b as nat),
            s <= b,
        decreases 64 - b,
    {
        if u64_bit(n, b) {
            s = s + 1;
        }
        b = b + 1;
    }
    s
}

// ---------------------------------------------------------------------------
// All sub-masks of a bit pattern
// ---------------------------------------------------------------------------
/// The positions of the set bits of `n` below `k`, in increasing order.
pub open spec fn spec_bit_base(n: u64, k: nat) -> Seq<u8>
    decreases k,
{
    if k == 0 {
        Seq::empty()
    } else {
        spec_bit_base(n, (k - 1) as nat) + (if (n >> (((k - 1) as nat) as u64)) & 1u64 == 1u64 {
            seq![((k - 1) as nat) as u8]
        } else {
            Seq::<u8>::empty()
        })
    }
}

/// The mask with exactly the listed bits set, built left to right.
pub open spec fn spec_mask_of(c: Seq<u8>, j: int) -> u64
    decreases j,
{
    if j <= 0 {
        0
    } else {
        (spec_mask_of(c, j - 1) & !(1u64 << (c[j - 1] as u64))) | (1u64 << (c[j - 1] as u64))
    }
}

/// The masks of the first `j` combination sizes, flattened in order.
pub open spec fn spec_comb_sizes(base: Seq<u8>, j: int) -> Seq<u64>
    decreases j,
{
    if j <= 0 {
        Seq::empty()
    } else {
        spec_comb_sizes(base, j - 1) + spec_combos(base, (j - 1) as nat).map_values(
            |c: Seq<u8>| spec_mask_of(c, c.len() as int),
        )
    }
}

/// What `comb_bitmask` yields: for each subset size, the masks of all
/// combinations of the set bit positions of `n` below `num_bits`.
pub open spec fn spec_comb_list(num_bits: u8, n: u64) -> Seq<u64> {
    let base = spec_bit_base(n, num_bits as nat);
    spec_comb_sizes(base, base.len() as int + 1)
}

pub proof fn lemma_bit_base_len(n: u64, k: nat)
    ensures
        spec_bit_base(n, k).len() <= k,
    decreases k,
{
    if k > 0 {
        lemma_bit_base_len(n, (k - 1) as nat);
    }
}

/// Given a bit pattern, the masks of every combination of its set bits:
/// all its sub-masks, grouped by size.
#[verifier::loop_isolation(false)]
pub fn comb_bitmask(num_bits: u8, n: u64) -> (r: Vec<u64>)
    requires
        num_bits <= 64,
    ensures
        r@ == spec_comb_list(num_bits, n),
{
    let mut bit_base: Vec<u8> = Vec::new();
    let mut b: u8 = 0;
    while b < num_bits
        invariant
            b <= num_bits,
            bit_base@ == spec_bit_base(n, b as nat),
            forall|k: int| 0 <= k < bit_base@.len() ==> #[trigger] bit_base@[k] < num_bits,
        decreases num_bits - b,
    {
        if u64_bit(n, b as u32) {
            bit_base.push(b);
            proof {
                assert(bit_base@ =~= spec_bit_base(n, b as nat + 1));
            }
        } else {
            proof {
                assert(bit_base@ =~= spec_bit_base(n, b as nat + 1));
            }
        }
        b = b + 1;
    }
    let ghost base = bit_base@;

    let bit_pop_n = bit_base.len();
    proof {
        lemma_bit_base_len(n, num_bits as nat);
        assert(base.len() <= 64);
    }
    let mut r: Vec<u64> = Vec::new();
    let mut n_b: usize = 0;
    while n_b < bit_pop_n + 1
        invariant
            n_b <= bit_pop_n + 1,
            bit_pop_n == base.len(),
            bit_base@ == base,
            forall|k: int| 0 <= k < base.len() ==> #[trigger] base[k] < num_bits,
            r@ == spec_comb_sizes(base, n_b as int),
        decreases bit_pop_n + 1 - n_b,
    {
        let combs = combinations_u8(&bit_base, n_b);
        let ghost cl = spec_combos(base, n_b as nat);
        proof {
            lemma_combos_elems(base, n_b as nat);
        }
        let mut ci: usize = 0;
        while ci < combs.len()
            invariant
                ci <= combs@.len(),
                combs.deep_view() == cl,
                r@ == spec_comb_sizes(base, n_b as int) + cl.map_values(
                    |c: Seq<u8>| spec_mask_of(c, c.len() as int),
                ).take(ci as int),
            decreases combs@.len() - ci,
        {
            let comb = &combs[ci];
            let ghost cv = cl[ci as int];
            proof {
                assert(combs.deep_view()[ci as int] == combs@[ci as int]@);
                assert(comb@ == cv);
            }
            let mut m: u64 = 0;
            let mut j: usize = 0;
            while j < comb.len()
                invariant
                    j <= comb@.len(),
                    comb@ == cv,
                    m == spec_mask_of(cv, j as int),
                decreases comb@.len() - j,
            {
                let bit = comb[j];
                proof {
                    assert(cl[ci as int][j as int] == bit);
                    assert(base.contains(bit));
                    let w = choose|w: int| 0 <= w < base.len() && base[w] == bit;
                    assert(base[w] < num_bits);
                }
                u64_set_bit(&mut m, bit, true);
                j = j + 1;
            }
            r.push(m);
            proof {
                assert(m == spec_mask_of(cv, cv.len() as int));
                assert(cl.map_values(|c: Seq<u8>| spec_mask_of(c, c.len() as int)).take(
                    ci as int + 1,
                ) =~= cl.map_values(|c: Seq<u8>| spec_mask_of(c, c.len() as int)).take(
                    ci as int,
                ).push(spec_mask_of(cv, cv.len() as int)));
                assert(r@ =~= spec_comb_sizes(base, n_b as int) + cl.map_values(
                    |c: Seq<u8>| spec_mask_of(c, c.len() as int),
                ).take(ci as int + 1));
            }
            ci = ci + 1;
        }
        proof {
            assert(cl.map_values(|c: Seq<u8>| spec_mask_of(c, c.len() as int)).take(cl.len() as int)
                =~= cl.map_values(|c: Seq<u8>| spec_mask_of(c, c.len() as int)));
            assert(r@ =~= spec_comb_sizes(base, n_b as int + 1));
        }
        n_b = n_b + 1;
    }
    r
}

} // verus!

verus! {

// ---------------------------------------------------------------------------
// The Sierpinski solver
// ---------------------------------------------------------------------------
/// The size bound of a flattened combination list.
pub proof fn lemma_comb_sizes_len(base: Seq<u8>, j: int)
    requires
        j >= 0,
    ensures
        spec_comb_sizes(base, j).len() <= j * pow2(base.len()),
    decreases j,
{
    if j > 0 {
        lemma_comb_sizes_len(base, j - 1);
        lemma_combos_len(base, (j - 1) as nat);
        assert((j - 1) * pow2(base.len()) + pow2(base.len()) == j * pow2(base.len()))
            by (nonlinear_arith);
    }
}

/// One summand of the Möbius inversion: the truth-table entry at
/// `mid + b`, negated on odd overlap with `i`.
pub open spec fn spec_term(tt: Seq<i8>, mid: u64, i: u64, b: u64) -> int {
    (tt[(mid + b) as int] as int) * (if spec_pop64(b ^ i, 64) % 2 == 0 {
        1int
    } else {
        -1int
    })
}

pub open spec fn spec_ssum(tt: Seq<i8>, mid: u64, i: u64, bs: Seq<u64>, j: int) -> int
    decreases j,
{
    if j <= 0 {
        0
    } else {
        spec_ssum(tt, mid, i, bs, j - 1) + spec_term(tt, mid, i, bs[j - 1])
    }
}

/// The coefficient appended for assignment `i` in the round of width `mid`.
pub open spec fn spec_a_entry(tt: Seq<i8>, a0: Seq<int>, exp: u8, mid: u64, i: u64) -> int {
    let bs = spec_comb_list(exp, i);
    -a0[i as int] + spec_ssum(tt, mid, i, bs, bs.len() as int)
}

/// The coefficient vector after the first `i` entries of one round.
pub open spec fn spec_round(tt: Seq<i8>, a0: Seq<int>, exp: u8, mid: u64, i: int) -> Seq<int>
    decreases i,
{
    if i <= 0 {
        a0
    } else {
        spec_round(tt, a0, exp, mid, i - 1).push(
            spec_a_entry(tt, a0, exp, mid, (i - 1) as u64),
        )
    }
}

/// The coefficient vector after `e` full rounds.
pub open spec fn spec_rounds(tt: Seq<i8>, e: int) -> Seq<int>
    decreases e,
{
    if e <= 0 {
        seq![tt[0] as int]
    } else {
        let a = spec_rounds(tt, e - 1);
        spec_round(tt, a, (e - 1) as u8, pow2((e - 1) as nat) as u64, pow2((e - 1) as nat) as int)
    }
}

/// What the solver returns: the rounds' output reversed and negated, with
/// the constant basis coefficient appended.
pub open spec fn spec_solve(tt: Seq<i8>, num_vars: u8) -> Seq<int> {
    let a = spec_rounds(tt, num_vars as int);
    a.reverse().map_values(|v: int| -v).push(1)
}

/// Inverts a truth table over the AND-basis: integer coefficients for each
/// basis conjunction, the constant one last.
#[verifier::loop_isolation(false)]
#[verifier::rlimit(100)]
#[verifier::spinoff_prover]
pub fn solve_sierpinski(tt: Vec<i8>, num_vars: u8) -> (r: Vec<i8>)
    requires
        num_vars <= 3,
        tt@.len() == pow2(num_vars as nat),
        forall|k: int| 0 <= k < tt@.len() ==> 0 <= #[trigger] tt@[k] <= 1,
    ensures
        r@.map_values(|x: i8| x as int) == spec_solve(tt@, num_vars),
        r@.len() == pow2(num_vars as nat) + 1,
{
    proof {
        assert(pow2(0) == 1);
        assert(pow2(1) == 2);
        assert(pow2(2) == 4);
        assert(pow2(3) == 8);
    }
    let mut a: Vec<i8> = Vec::new();
    a.push(tt[0]);
    proof {
        assert(a@.map_values(|x: i8| x as int) =~= spec_rounds(tt@, 0));
    }
    let mut exp: u8 = 0;
    while exp < num_vars
        invariant
            exp <= num_vars,
            a@.map_values(|x: i8| x as int) == spec_rounds(tt@, exp as int),
            a@.len() == pow2(exp as nat),
            forall|k: int| 0 <= k < a@.len() ==> -(1 + 13 * exp) <= #[trigger] a@[k] <= 1 + 13
                * exp,
        decreases num_vars - exp,
    {
        let mid: u64 = if exp == 0 {
            1
        } else if exp == 1 {
            2
        } else {
            4
        };
        proof {
            assert(mid as nat == pow2(exp as nat));
        }
        let ghost a0 = a@.map_values(|x: i8| x as int);
        let ghost bound0 = 1 + 13 * exp as int;
        let mut i: u64 = 0;
        while i < mid
            invariant
                i <= mid,
                exp < num_vars,
                mid as nat == pow2(exp as nat),
                a0 == spec_rounds(tt@, exp as int),
                a0.len() == mid,
                a@.map_values(|x: i8| x as int) == spec_round(tt@, a0, exp, mid, i as int),
                a@.len() == mid + i,
                forall|k: int| 0 <= k < mid ==> a@[k] == a0[k],
                forall|k: int| 0 <= k < a@.len() ==> -(bound0 + 13) <= #[trigger] a@[k] as int
                    <= bound0 + 13,
                forall|k: int| 0 <= k < mid ==> -bound0 <= #[trigger] a@[k] as int <= bound0,
            decreases mid - i,
        {
            let bs = comb_bitmask(exp, i);
            let ghost bsv = spec_comb_list(exp, i);
            proof {
                lemma_bit_base_len(i, exp as nat);
                lemma_comb_sizes_len(
                    spec_bit_base(i, exp as nat),
                    spec_bit_base(i, exp as nat).len() as int + 1,
                );
                let bl = spec_bit_base(i, exp as nat).len();
                assert(bl <= 2);
                assert(pow2(0) == 1);
                assert(pow2(1) == 2);
                assert(pow2(2) == 4);
                lemma_pow2_mono(bl, 2);
                assert((bl + 1) * pow2(bl) <= 12) by (nonlinear_arith)
                    requires
                        bl <= 2,
                        pow2(bl) <= 4,
                ;
                assert(bsv.len() <= 12);
            }
            let mut a_i: i32 = -(a[i as usize] as i32);
            let mut j: usize = 0;
            while j < bs.len()
                invariant
                    j <= bs@.len(),
                    bs@ == bsv,
                    bsv.len() <= 12,
                    exp < num_vars,
                    mid as nat == pow2(exp as nat),
                    tt@.len() == pow2(num_vars as nat),
                    num_vars <= 3,
                    forall|k: int| 0 <= k < tt@.len() ==> 0 <= #[trigger] tt@[k] <= 1,
                    i < mid,
                    a_i as int == -a0[i as int] + spec_ssum(tt@, mid, i, bsv, j as int),
                    -bound0 - j <= a_i as int <= bound0 + j,
                    bound0 <= 40,
                decreases bs@.len() - j,
            {
                let b = bs[j];
                proof {
                    lemma_mask_lt_mid(exp, i, b, j as int);
                    assert(mid + b < tt@.len()) by {
                        lemma_pow2_mono((exp + 1) as nat, num_vars as nat);
                    }
                }
                let x = bit_pop(b ^ i);
                let s_pos = x % 2 == 0;
                let sign: i8 = if s_pos {
                    1
                } else {
                    -1
                };
                let t = tt[(mid + b) as usize];
                proof {
                    assert(0 <= t <= 1);
                    assert(s_pos == (spec_pop64(b ^ i, 64) % 2 == 0));
                    assert(spec_term(tt@, mid, i, bsv[j as int]) == (if s_pos {
                        t as int
                    } else {
                        -(t as int)
                    }));
                }
                if s_pos {
                    a_i = a_i + (t as i32);
                } else {
                    a_i = a_i - (t as i32);
                }
                proof {
                    assert(a_i as int == -a0[i as int] + spec_ssum(tt@, mid, i, bsv, j as int + 1));
                }
                j = j + 1;
            }
            proof {
                assert(a_i as int == spec_a_entry(tt@, a0, exp, mid, i));
                assert(-(bound0 + 13) <= a_i as int <= bound0 + 13);
            }
            let ghost pre = a@.map_values(|x: i8| x as int);
            a.push(a_i as i8);
            proof {
                assert(a@.map_values(|x: i8| x as int) =~= pre.push(a_i as int));
            }
            i = i + 1;
        }
        proof {
            assert(a@.map_values(|x: i8| x as int) == spec_rounds(tt@, exp as int + 1));
            assert(a@.len() == 2 * mid);
            assert(2 * mid as nat == pow2(exp as nat + 1));
        }
        exp = exp + 1;
    }

    // reverse, negate, and append the constant coefficient
    let ghost afin = a@.map_values(|x: i8| x as int);
    let n = a.len();
    let mut res: Vec<i8> = Vec::new();
    let mut k: usize = 0;
    while k < n
        invariant
            k <= n,
            n == a@.len(),
            afin == a@.map_values(|x: i8| x as int),
            forall|q: int| 0 <= q < a@.len() ==> -127 <= #[trigger] a@[q] <= 127,
            res@.map_values(|x: i8| x as int) == afin.reverse().map_values(|v: int| -v).take(
                k as int,
            ),
        decreases n - k,
    {
        let v = a[n - 1 - k];
        res.push(-v);
        proof {
            assert(afin.reverse()[k as int] == afin[n - 1 - k]);
            assert(res@.map_values(|x: i8| x as int) =~= afin.reverse().map_values(
                |v: int| -v,
            ).take(k as int + 1));
        }
        k = k + 1;
    }
    res.push(1);
    proof {
        assert(afin.reverse().map_values(|v: int| -v).take(n as int) =~= afin.reverse().map_values(
            |v: int| -v,
        ));
        assert(res@.map_values(|x: i8| x as int) =~= spec_solve(tt@, num_vars));
    }
    res
}

pub proof fn lemma_pow2_mono(a: nat, b: nat)
    requires
        a <= b,
    ensures
        pow2(a) <= pow2(b),
    decreases b,
{
    if a < b {
        lemma_pow2_mono(a, (b - 1) as nat);
        lemma_pow2_pos((b - 1) as nat);
    }
}

/// Every mask in the combination list of `i` keeps below the block width.
pub proof fn lemma_mask_lt_mid(exp: u8, i: u64, b: u64, j: int)
    requires
        exp <= 3,
        i < pow2(exp as nat),
        0 <= j < spec_comb_list(exp, i).len(),
        b == spec_comb_list(exp, i)[j],
    ensures
        b < pow2(exp as nat),
{
    let base = spec_bit_base(i, exp as nat);
    lemma_bit_base_elems(i, exp as nat);
    lemma_comb_sizes_masks(base, base.len() as int + 1, exp as u64);
    assert(pow2(exp as nat) == (1u64 << (exp as u64))) by {
        let e = exp;
        assert(pow2(0) == 1);
        assert(pow2(1) == 2);
        assert(pow2(2) == 4);
        assert(pow2(3) == 8);
        assert(e <= 3 ==> (1u64 << (e as u64)) == (if e == 0 {
            1u64
        } else if e == 1 {
            2u64
        } else if e == 2 {
            4u64
        } else {
            8u64
        })) by (bit_vector);
    }
}

/// The set bit positions recorded for `i` all lie below the width.
pub proof fn lemma_bit_base_elems(n: u64, k: nat)
    ensures
        forall|q: int|
            0 <= q < spec_bit_base(n, k).len() ==> (#[trigger] spec_bit_base(n, k)[q] as nat) < k,
    decreases k,
{
    if k > 0 {
        lemma_bit_base_elems(n, (k - 1) as nat);
        let prev = spec_bit_base(n, (k - 1) as nat);
        assert forall|q: int|
            0 <= q < spec_bit_base(n, k).len() implies (#[trigger] spec_bit_base(n, k)[q] as nat)
            < k by {
            if q < prev.len() {
                assert(spec_bit_base(n, k)[q] == prev[q]);
            }
        }
    }
}

/// A mask built from positions below `e` stays below `2^e`.
pub proof fn lemma_mask_of_bound(c: Seq<u8>, j: int, e: u64)
    requires
        e <= 63,
        j <= c.len(),
        forall|q: int| 0 <= q < c.len() ==> (#[trigger] c[q] as u64) < e,
    ensures
        spec_mask_of(c, j) < (1u64 << e),
    decreases j,
{
    if j <= 0 {
        assert(0u64 < (1u64 << e)) by {
            assert(e <= 63 ==> 0u64 < (1u64 << e)) by (bit_vector);
        }
    } else {
        lemma_mask_of_bound(c, j - 1, e);
        let m = spec_mask_of(c, j - 1);
        let b = c[j - 1] as u64;
        assert(m < (1u64 << e) && b < e && e <= 63 ==> ((m & !(1u64 << b)) | (1u64 << b)) < (
        1u64 << e)) by (bit_vector);
    }
}

/// Every flattened combination mask stays below `2^e` when the base
/// positions do.
pub proof fn lemma_comb_sizes_masks(base: Seq<u8>, j: int, e: u64)
    requires
        e <= 63,
        forall|q: int| 0 <= q < base.len() ==> (#[trigger] base[q] as u64) < e,
    ensures
        forall|q: int|
            0 <= q < spec_comb_sizes(base, j).len() ==> #[trigger] spec_comb_sizes(base, j)[q] < (
            1u64 << e),
    decreases j,
{
    if j > 0 {
        lemma_comb_sizes_masks(base, j - 1, e);
        lemma_combos_elems(base, (j - 1) as nat);
        let cl = spec_combos(base, (j - 1) as nat);
        let mapped = cl.map_values(|c: Seq<u8>| spec_mask_of(c, c.len() as int));
        assert forall|q: int|
            0 <= q < spec_comb_sizes(base, j).len() implies #[trigger] spec_comb_sizes(base, j)[q]
            < (1u64 << e) by {
            let prevlen = spec_comb_sizes(base, j - 1).len();
            if q >= prevlen {
                let c = cl[q - prevlen];
                assert(mapped[q - prevlen] == spec_mask_of(c, c.len() as int));
                assert forall|w: int| 0 <= w < c.len() implies (#[trigger] c[w] as u64) < e by {
                    assert(base.contains(c[w]));
                    let m = choose|m: int| 0 <= m < base.len() && base[m] == c[w];
                    assert((base[m] as u64) < e);
                }
                lemma_mask_of_bound(c, c.len() as int, e);
            }
        }
    }
}

} // verus!

verus! {

// ---------------------------------------------------------------------------
// The truth-table engine
// ---------------------------------------------------------------------------
/// The operator and marker symbols of a polish stream.
pub open spec fn is_tt_op(c: char) -> bool {
    c == '^' || c == '|' || c == '&' || c == '!'
}

/// Insertion into a sorted list of distinct variables.
pub open spec fn spec_insert(c: char, s: Seq<char>) -> Seq<char>
    decreases s.len(),
{
    if s.len() == 0 {
        seq![c]
    } else if c as u32 == s[0] as u32 {
        s
    } else if (c as u32) < (s[0] as u32) {
        seq![c] + s
    } else {
        seq![s[0]] + spec_insert(c, s.drop_first())
    }
}

/// The distinct variables of the first `j` tokens, in increasing order.
pub open spec fn spec_vars_seq(pn: Seq<(char, Seq<char>)>, j: int) -> Seq<char>
    decreases j,
{
    if j <= 0 {
        Seq::empty()
    } else {
        let prev = spec_vars_seq(pn, j - 1);
        if is_tt_op(pn[j - 1].0) {
            prev
        } else {
            spec_insert(pn[j - 1].0, prev)
        }
    }
}

/// The position of a variable in the ordered list; its length if absent.
pub open spec fn spec_find(s: Seq<char>, c: char) -> int
    decreases s.len(),
{
    if s.len() == 0 {
        0
    } else if s[0] == c {
        0
    } else {
        1 + spec_find(s.drop_first(), c)
    }
}

/// A boolean combination under one operator symbol.
pub open spec fn spec_cb(op: char, a: bool, b: bool) -> bool {
    if op == '^' {
        a != b
    } else if op == '|' {
        a || b
    } else if op == '&' {
        a && b
    } else {
        b
    }
}

/// Every sign of the stream is empty or the single complement mark.
pub open spec fn tt_signs_ok(pn: Seq<(char, Seq<char>)>) -> bool {
    forall|k: int|
        0 <= k < pn.len() ==> (#[trigger] pn[k].1 == Seq::<char>::empty() || pn[k].1 == seq!['~'])
}

/// The shape discipline the engine demands, checked over the stream in
/// consumption order, newest token first. `acc` says whether the
/// accumulator holds a value, `has_op` whether an operator is current:
/// an operator may push a frame only over a held value, a variable may
/// combine only under an operator, a close marker needs an open frame,
/// and the stream must end with a value in hand.
pub open spec fn spec_shape_run(
    pn: Seq<(char, Seq<char>)>,
    k: int,
    acc: bool,
    has_op: bool,
    depth: int,
) -> bool
    decreases k,
{
    if k <= 0 {
        acc
    } else {
        let c = pn[k - 1].0;
        if c == '^' || c == '|' || c == '&' {
            acc == has_op && spec_shape_run(
                pn,
                k - 1,
                false,
                true,
                depth + if has_op {
                    1int
                } else {
                    0int
                },
            )
        } else if c == '!' {
            acc && depth >= 1 && spec_shape_run(pn, k - 1, true, true, depth - 1)
        } else {
            (!acc || has_op) && spec_shape_run(pn, k - 1, true, has_op, depth)
        }
    }
}

/// A polish stream the engine accepts. The accumulator starts absent, so
/// a lone variable is itself an accepted stream.
pub open spec fn pn_shape_ok(pn: Seq<(char, Seq<char>)>) -> bool {
    spec_shape_run(pn, pn.len() as int, false, false, 0)
}

/// The engine state after consuming all tokens from position `k` up.
pub open spec fn spec_eval_run(
    pn: Seq<(char, Seq<char>)>,
    vars: Seq<char>,
    i: u32,
    k: int,
    acc: Option<bool>,
    op: char,
    stack: Seq<(bool, char, bool)>,
) -> (Option<bool>, char, Seq<(bool, char, bool)>)
    decreases k,
{
    if k <= 0 {
        (acc, op, stack)
    } else {
        let c = pn[k - 1].0;
        let sgn = pn[k - 1].1 == seq!['~'];
        let val = match acc {
            Some(v) => v,
            None => true,
        };
        if c == '^' || c == '|' || c == '&' {
            let stack2 = if op != '-' {
                stack.push((val, op, sgn))
            } else {
                stack
            };
            spec_eval_run(pn, vars, i, k - 1, None, c, stack2)
        } else if c == '!' {
            if stack.len() == 0 {
                (acc, op, stack)
            } else {
                let fr = stack.last();
                let acc2 = spec_cb(fr.1, fr.0, val != fr.2);
                spec_eval_run(pn, vars, i, k - 1, Some(acc2), fr.1, stack.drop_last())
            }
        } else {
            let vb = sgn != ((i >> (spec_find(vars, c) as u32)) & 1 == 1);
            let acc2 = match acc {
                Some(b) => spec_cb(op, b, vb),
                None => vb,
            };
            spec_eval_run(pn, vars, i, k - 1, Some(acc2), op, stack)
        }
    }
}

/// Collapsing the residual frames after the stream ends.
pub open spec fn spec_drain(b: bool, stack: Seq<(bool, char, bool)>) -> bool
    decreases stack.len(),
{
    if stack.len() == 0 {
        b
    } else {
        let fr = stack.last();
        spec_drain(spec_cb(fr.1, fr.0, b) != fr.2, stack.drop_last())
    }
}

/// The truth value of the stream under assignment `i`, where variable `k`
/// of the ordered list takes bit `k` of `i`.
pub open spec fn spec_tt_entry(pn: Seq<(char, Seq<char>)>, vars: Seq<char>, i: u32) -> bool {
    let st = spec_eval_run(pn, vars, i, pn.len() as int, None, '-', Seq::empty());
    spec_drain(
        match st.0 {
            Some(v) => v,
            None => true,
        },
        st.2,
    )
}

/// The view of a polish stream: each token's symbol with its sign text.
pub open spec fn pn_view(pn: Seq<(char, String)>) -> Seq<(char, Seq<char>)> {
    pn.map_values(|p: (char, String)| (p.0, p.1@))
}

fn exec_cb(op: char, b1: bool, b2: bool) -> (r: bool)
    requires
        op == '^' || op == '|' || op == '&',
    ensures
        r == spec_cb(op, b1, b2),
{
    match op {
        '^' => b1 != b2,
        '|' => b1 || b2,
        '&' => b1 && b2,
        _ => {
            proof {
                assert(false);
            }
            b2
        },
    }
}

/// The distinct variables of a polish stream, in increasing order.
#[verifier::loop_isolation(false)]
pub fn collect_vars(pn: &Vec<(char, String)>) -> (vars: Vec<char>)
    ensures
        vars@ == spec_vars_seq(pn_view(pn@), pn@.len() as int),
{
    let ghost pnv = pn_view(pn@);
    let mut vars: Vec<char> = Vec::new();
    let mut t: usize = 0;
    while t < pn.len()
        invariant
            t <= pn@.len(),
            vars@ == spec_vars_seq(pnv, t as int),
        decreases pn@.len() - t,
    {
        let c = pn[t].0;
        proof {
            assert(pnv[t as int].0 == c);
        }
        if !(c == '^' || c == '|' || c == '&' || c == '!') {
            // insert in order, once
            let ghost pre = vars@;
            let mut p: usize = 0;
            let mut placed = false;
            while !placed && p < vars.len()
                invariant
                    placed ==> vars@ == spec_insert(c, pre),
                    !placed ==> p <= vars@.len() && vars@ == pre,
                    !placed ==> forall|q: int|
                        0 <= q < p ==> (#[trigger] pre[q] as u32) < c as u32,
                decreases (if placed {
                    0int
                } else {
                    vars@.len() - p + 1
                }),
            {
                let v = vars[p];
                if (v as u32) == (c as u32) {
                    placed = true;
                    proof {
                        lemma_insert_found(c, pre, p as int);
                    }
                } else if (c as u32) < (v as u32) {
                    vars.insert(p, c);
                    placed = true;
                    proof {
                        lemma_insert_at(c, pre, p as int);
                        assert(vars@ =~= pre.take(p as int) + seq![c] + pre.skip(p as int));
                    }
                } else {
                    p = p + 1;
                }
            }
            if !placed {
                vars.push(c);
                proof {
                    lemma_insert_end(c, pre);
                    assert(vars@ =~= pre.push(c));
                }
            }
            proof {
                assert(vars@ == spec_vars_seq(pnv, t as int + 1));
            }
        } else {
            proof {
                assert(vars@ == spec_vars_seq(pnv, t as int + 1));
            }
        }
        t = t + 1;
    }
    vars
}

/// Evaluates a bitwise polish stream over every assignment of its
/// variables: the truth table, together with how many variables it has.
#[verifier::loop_isolation(false)]
#[verifier::rlimit(100)]
pub fn compute_truth_table(pn: &Vec<(char, String)>) -> (r: (Vec<i8>, u8))
    requires
        pn@.len() > 0,
        tt_signs_ok(pn_view(pn@)),
        pn_shape_ok(pn_view(pn@)),
        spec_vars_seq(pn_view(pn@), pn@.len() as int).len() <= 3,
    ensures
        r.1 as nat == spec_vars_seq(pn_view(pn@), pn@.len() as int).len(),
        r.0@.len() == pow2(r.1 as nat),
        r.0@ == Seq::new(
            pow2(r.1 as nat),
            |i: int| if spec_tt_entry(pn_view(pn@), spec_vars_seq(pn_view(pn@), pn@.len() as int), i as u32) {
                1i8
            } else {
                0i8
            },
        ),
{
    let ghost pnv = pn_view(pn@);
    let vars = collect_vars(pn);
    let ghost varsv = vars@;

    let num_var = vars.len() as u8;
    proof {
        assert(varsv.len() <= 3);
        assert(pow2(0) == 1);
        assert(pow2(1) == 2);
        assert(pow2(2) == 4);
        assert(pow2(3) == 8);
    }
    let count: u32 = if num_var == 0 {
        1
    } else if num_var == 1 {
        2
    } else if num_var == 2 {
        4
    } else {
        8
    };
    proof {
        assert(count as nat == pow2(num_var as nat));
    }

    let mut res: Vec<i8> = Vec::new();
    let mut i: u32 = 0;
    while i < count
        invariant
            i <= count,
            count as nat == pow2(num_var as nat),
            num_var as nat == varsv.len(),
            vars@ == varsv,
            varsv == spec_vars_seq(pnv, pn@.len() as int),
            res@.len() == i,
            forall|q: int|
                0 <= q < i ==> #[trigger] res@[q] == (if spec_tt_entry(pnv, varsv, q as u32) {
                    1i8
                } else {
                    0i8
                }),
        decreases count - i,
    {
        let mut aux_op: char = '-';
        let mut aux_b: Option<bool> = None;
        let mut stack: Vec<(bool, char, bool)> = Vec::new();
        let mut k: usize = pn.len();
        proof {
            assert(spec_shape_run(pnv, k as int, false, false, 0));
        }
        while k > 0
            invariant
                k <= pn@.len(),
                vars@ == varsv,
                spec_eval_run(pnv, varsv, i, k as int, aux_b, aux_op, stack@) == spec_eval_run(
                    pnv,
                    varsv,
                    i,
                    pn@.len() as int,
                    None,
                    '-',
                    Seq::empty(),
                ),
                spec_shape_run(pnv, k as int, aux_b is Some, aux_op != '-', stack@.len() as int),
                aux_op == '-' || aux_op == '^' || aux_op == '|' || aux_op == '&',
                forall|q: int|
                    0 <= q < stack@.len() ==> (#[trigger] stack@[q].1 == '^' || stack@[q].1 == '|'
                        || stack@[q].1 == '&'),
            decreases k,
        {
            let c = pn[k - 1].0;
            let sref = &pn[k - 1].1;
            let slen = sref.as_str().unicode_len();
            let bool_sign = slen == 1;
            proof {
                assert(pnv[k - 1].0 == c);
                assert(pnv[k - 1].1 == pn@[k - 1].1@);
                assert(tt_signs_ok(pnv));
                assert(pnv[k - 1].1 == Seq::<char>::empty() || pnv[k - 1].1 == seq!['~']);
                assert(bool_sign == (pnv[k - 1].1 == seq!['~']));
            }
            if c == '^' || c == '|' || c == '&' {
                if aux_op != '-' {
                    let val = match aux_b {
                        Some(v) => v,
                        None => {
                            proof {
                                assert(false);
                            }
                            true
                        },
                    };
                    stack.push((val, aux_op, bool_sign));
                }
                aux_op = c;
                aux_b = None;
            } else if c == '!' {
                let val = match aux_b {
                    Some(v) => v,
                    None => {
                        proof {
                            assert(false);
                        }
                        true
                    },
                };
                proof {
                    assert(stack@.len() >= 1);
                }
                let fr = match stack.pop() {
                    Some(f) => f,
                    None => {
                        proof {
                            assert(false);
                        }
                        (true, '^', false)
                    },
                };
                let v2 = val != fr.2;
                aux_b = Some(exec_cb(fr.1, fr.0, v2));
                aux_op = fr.1;
            } else {
                // a variable: its assignment bit, complemented on demand
                let mut pos: usize = 0;
                proof {
                    assert(varsv.skip(0) =~= varsv);
                }
                while pos < vars.len()
                    invariant
                        pos <= vars@.len(),
                        vars@ == varsv,
                        forall|q: int| 0 <= q < pos ==> #[trigger] varsv[q] != c,
                        spec_find(varsv.skip(pos as int), c) + pos == spec_find(varsv, c),
                    decreases vars@.len() - pos,
                {
                    if vars[pos] == c {
                        break ;
                    }
                    proof {
                        assert(varsv.skip(pos as int)[0] == varsv[pos as int]);
                        assert(varsv.skip(pos as int).drop_first() =~= varsv.skip(pos as int + 1));
                    }
                    pos = pos + 1;
                }
                proof {
                    if pos < varsv.len() {
                        assert(varsv.skip(pos as int)[0] == varsv[pos as int]);
                        assert(spec_find(varsv, c) == pos);
                    } else {
                        assert(varsv.skip(pos as int) =~= Seq::<char>::empty());
                        assert(spec_find(varsv, c) == pos);
                    }
                }
                let bitpos = pos as u32;
                let vbit = if bitpos < 32 {
                    (i >> bitpos) & 1 == 1
                } else {
                    false
                };
                proof {
                    assert(bitpos < 32);
                }
                let var_bool = bool_sign != vbit;
                match aux_b {
                    Some(b) => {
                        proof {
                            assert(aux_op != '-');
                        }
                        aux_b = Some(exec_cb(aux_op, b, var_bool));
                    },
                    None => {
                        aux_b = Some(var_bool);
                    },
                }
            }
            k = k - 1;
        }
        let mut b = match aux_b {
            Some(v) => v,
            None => {
                proof {
                    assert(false);
                }
                true
            },
        };
        while stack.len() > 0
            invariant
                spec_drain(b, stack@) == spec_tt_entry(pnv, varsv, i),
                forall|q: int|
                    0 <= q < stack@.len() ==> (#[trigger] stack@[q].1 == '^' || stack@[q].1 == '|'
                        || stack@[q].1 == '&'),
            decreases stack@.len(),
        {
            let fr = stack.pop().unwrap();
            b = exec_cb(fr.1, fr.0, b) != fr.2;
        }
        res.push(if b {
            1
        } else {
            0
        });
        i = i + 1;
    }
    proof {
        assert(res@ =~= Seq::new(
            pow2(num_var as nat),
            |q: int| if spec_tt_entry(pnv, varsv, q as u32) {
                1i8
            } else {
                0i8
            },
        ));
    }
    (res, num_var)
}

// helper lemmas for ordered insertion
pub open spec fn spec_insert_frame(c: char, pre: Seq<char>, out: Seq<char>) -> bool {
    out == spec_insert(c, pre)
}

pub proof fn lemma_insert_found(c: char, pre: Seq<char>, p: int)
    requires
        0 <= p < pre.len(),
        pre[p] as u32 == c as u32,
        forall|q: int| 0 <= q < p ==> (#[trigger] pre[q] as u32) < c as u32,
    ensures
        spec_insert(c, pre) == pre,
    decreases p,
{
    if p == 0 {
    } else {
        assert((pre[0] as u32) < c as u32);
        lemma_insert_found(c, pre.drop_first(), p - 1);
        assert(spec_insert(c, pre) == seq![pre[0]] + spec_insert(c, pre.drop_first()));
        assert(seq![pre[0]] + pre.drop_first() =~= pre);
    }
}

pub proof fn lemma_insert_at(c: char, pre: Seq<char>, p: int)
    requires
        0 <= p < pre.len(),
        (c as u32) < pre[p] as u32,
        forall|q: int| 0 <= q < p ==> (#[trigger] pre[q] as u32) < c as u32,
    ensures
        spec_insert(c, pre) == pre.take(p) + seq![c] + pre.skip(p),
    decreases p,
{
    if p == 0 {
        assert(spec_insert(c, pre) == seq![c] + pre);
        assert(pre.take(0) + seq![c] + pre.skip(0) =~= seq![c] + pre);
    } else {
        assert((pre[0] as u32) < c as u32);
        lemma_insert_at(c, pre.drop_first(), p - 1);
        assert(spec_insert(c, pre) == seq![pre[0]] + spec_insert(c, pre.drop_first()));
        assert(pre.drop_first().take(p - 1) =~= pre.take(p).drop_first());
        assert(seq![pre[0]] + (pre.drop_first().take(p - 1) + seq![c] + pre.drop_first().skip(
            p - 1,
        )) =~= pre.take(p) + seq![c] + pre.skip(p));
    }
}

pub proof fn lemma_insert_end(c: char, pre: Seq<char>)
    requires
        forall|q: int| 0 <= q < pre.len() ==> (#[trigger] pre[q] as u32) < c as u32,
    ensures
        spec_insert(c, pre) == pre.push(c),
    decreases pre.len(),
{
    if pre.len() == 0 {
        assert(spec_insert(c, pre) =~= pre.push(c));
    } else {
        assert((pre[0] as u32) < c as u32);
        lemma_insert_end(c, pre.drop_first());
        assert(spec_insert(c, pre) == seq![pre[0]] + spec_insert(c, pre.drop_first()));
        assert(seq![pre[0]] + pre.drop_first().push(c) =~= pre.push(c));
    }
}

} // verus!

verus! {

/// Checks the shape discipline of a polish stream.
#[verifier::loop_isolation(false)]
fn check_shape(pn: &Vec<(char, String)>) -> (b: bool)
    ensures
        b == pn_shape_ok(pn_view(pn@)),
{
    let ghost pnv = pn_view(pn@);
    let mut acc = false;
    let mut has_op = false;
    let mut depth: usize = 0;
    let mut k: usize = pn.len();
    while k > 0
        invariant
            k <= pn@.len(),
            depth as int <= pn@.len() - k,
            spec_shape_run(pnv, k as int, acc, has_op, depth as int) == pn_shape_ok(pnv),
        decreases k,
    {
        let c = pn[k - 1].0;
        proof {
            assert(pnv[k - 1].0 == c);
        }
        if c == '^' || c == '|' || c == '&' {
            if acc != has_op {
                return false;
            }
            if has_op {
                proof {
                    assert(depth < usize::MAX);
                }
                depth = depth + 1;
            }
            acc = false;
            has_op = true;
        } else if c == '!' {
            if !acc || depth < 1 {
                return false;
            }
            depth = depth - 1;
            acc = true;
            has_op = true;
        } else {
            if acc && !has_op {
                return false;
            }
            acc = true;
        }
        k = k - 1;
    }
    acc
}

/// Checks that every sign is empty or the single complement mark.
#[verifier::loop_isolation(false)]
fn check_signs(pn: &Vec<(char, String)>) -> (b: bool)
    ensures
        b == tt_signs_ok(pn_view(pn@)),
{
    let ghost pnv = pn_view(pn@);
    let mut k: usize = 0;
    while k < pn.len()
        invariant
            k <= pn@.len(),
            forall|q: int|
                0 <= q < k ==> (#[trigger] pnv[q].1 == Seq::<char>::empty() || pnv[q].1 == seq![
                    '~',
                ]),
        decreases pn@.len() - k,
    {
        let s = &pn[k].1;
        let n = s.as_str().unicode_len();
        proof {
            assert(pnv[k as int].1 == pn@[k as int].1@);
        }
        if n == 0 {
            proof {
                assert(pnv[k as int].1 =~= Seq::<char>::empty());
            }
        } else if n == 1 && s.as_str().get_char(0) == '~' {
            proof {
                assert(pnv[k as int].1 =~= seq!['~']);
            }
        } else {
            proof {
                assert(!(pnv[k as int].1 == Seq::<char>::empty() || pnv[k as int].1 == seq!['~']));
            }
            return false;
        }
        k = k + 1;
    }
    true
}

/// The engine behind a guard: the truth table of a polish stream, or
/// `None` where the stream is empty, ill-shaped, carries an arithmetic
/// sign, or names more than three variables.
pub fn truth_table_checked(pn: &Vec<(char, String)>) -> (r: Option<(Vec<i8>, u8)>)
    ensures
        (match r {
            Some(p) => {
                &&& pn@.len() > 0
                &&& tt_signs_ok(pn_view(pn@))
                &&& pn_shape_ok(pn_view(pn@))
                &&& p.1 as nat == spec_vars_seq(pn_view(pn@), pn@.len() as int).len()
                &&& p.1 <= 3
                &&& p.0@.len() == pow2(p.1 as nat)
                &&& p.0@ == Seq::new(
                    pow2(p.1 as nat),
                    |i: int|
                        if spec_tt_entry(
                            pn_view(pn@),
                            spec_vars_seq(pn_view(pn@), pn@.len() as int),
                            i as u32,
                        ) {
                            1i8
                        } else {
                            0i8
                        },
                )
            },
            None => !(pn@.len() > 0 && tt_signs_ok(pn_view(pn@)) && pn_shape_ok(pn_view(pn@))
                && spec_vars_seq(pn_view(pn@), pn@.len() as int).len() <= 3),
        }),
{
    if pn.len() == 0 {
        return None;
    }
    if !check_signs(pn) {
        return None;
    }
    if !check_shape(pn) {
        return None;
    }
    let vars = collect_vars(pn);
    if vars.len() > 3 {
        return None;
    }
    Some(compute_truth_table(pn))
}

} // verus!

