//! Binary BCH code over GF(2^m): table construction, systematic encoding and
//! decoding with Berlekamp-Massey and root search.
use vstd::prelude::*;

verus! {

/// The primitive polynomial `x^7 + x^3 + 1` of the field GF(2^7).
pub const POLYNOMIAL: u32 = 137;

/// Number of 32-bit words in the encoder's register.
pub const ECC_MAX_WORDS: usize = 62;

/// `(1 << z) - 1`: the mask of the `z` lowest bits.
pub open spec fn low_mask(z: u32) -> u32 {
    ((1u32 << z) - 1) as u32
}

/// Index of the highest set bit of `x`.
pub open spec fn is_top_bit(x: u32, d: u32) -> bool {
    d < 32 && x >> d == 1u32
}

/// The degree of `poly`, read as a polynomial over GF(2).
pub open spec fn degree(poly: u32) -> u32 {
    choose|d: u32| is_top_bit(poly, d)
}

proof fn lemma_top_bit_unique(x: u32, a: u32, b: u32)
    requires
        is_top_bit(x, a),
        is_top_bit(x, b),
    ensures
        a == b,
{
    assert(a < 32 && b < 32 && x >> a == 1u32 && x >> b == 1u32 ==> a == b) by (bit_vector);
}

/// Index of the highest set bit of a nonzero `x`.
fn top_bit(x: u32) -> (d: u32)
    requires
        x != 0,
    ensures
        is_top_bit(x, d),
        d == degree(x),
{
    let mut d: u32 = 31;
    while x >> d == 0
        invariant
            x != 0,
            d < 32,
            d == 31 || x >> ((d + 1) as u32) == 0,
        decreases d,
    {
        if d == 0 {
            assert(x >> 0u32 == x) by (bit_vector);
        }
        d = d - 1;
    }
    assert(d < 32 && x >> d != 0 && (d == 31 || x >> ((d + 1) as u32) == 0) ==> x >> d == 1u32)
        by (bit_vector);
    assert(is_top_bit(x, d));
    assert(is_top_bit(x, degree(x)));
    proof {
        lemma_top_bit_unique(x, d, degree(x));
    }
    d
}

/// One step of the field's exponent table: multiply by `x` modulo `poly`.
pub open spec fn lfsr_step(poly: u32, m: u32, x: u32) -> u32 {
    let y = (x * 2) as u32;
    if y & (1u32 << m) != 0 {
        y ^ poly
    } else {
        y
    }
}

/// `alpha^i` as the exponent table computes it.
pub open spec fn lfsr_pow(poly: u32, m: u32, i: nat) -> u32
    decreases i,
{
    if i == 0 {
        1
    } else {
        lfsr_step(poly, m, lfsr_pow(poly, m, (i - 1) as nat))
    }
}

/// The exponent table: `alpha^i` for `i < n`, and `alpha^n = 1` at the end.
pub open spec fn exp_table(poly: u32, m: u32, n: u32) -> Seq<u32> {
    Seq::new((n + 1) as nat, |i: int| if i < n { lfsr_pow(poly, m, i as nat) } else { 1u32 })
}

/// The logarithm table after the powers `alpha^0 .. alpha^(i-1)` are entered.
pub open spec fn log_prefix(poly: u32, m: u32, n: u32, i: nat) -> Seq<u32>
    decreases i,
{
    if i == 0 {
        Seq::new((n + 1) as nat, |k: int| 0u32)
    } else {
        log_prefix(poly, m, n, (i - 1) as nat).update(
            lfsr_pow(poly, m, (i - 1) as nat) as int,
            (i - 1) as u32,
        )
    }
}

/// The logarithm table: `logarithms[alpha^i] = i`, and 0 at 0.
pub open spec fn log_table(poly: u32, m: u32, n: u32) -> Seq<u32> {
    log_prefix(poly, m, n, n as nat).update(0, 0)
}

/// The root marks `s` after `k` more conjugates `r, 2r, 4r, ...` (mod `n`)
/// are marked.
pub open spec fn mark_coset(s: Seq<u32>, r: u32, n: u32, k: nat) -> Seq<u32>
    decreases k,
{
    if k == 0 {
        s
    } else {
        mark_coset(s.update(r as int, 1), ((2 * r) % (n as int)) as u32, n, (k - 1) as nat)
    }
}

/// The marks of the generator's roots: the conjugates of `alpha^(2i+1)`, `i < t`.
pub open spec fn roots_table(n: u32, m: u32, t: nat) -> Seq<u32>
    decreases t,
{
    if t == 0 {
        Seq::new((n + 1) as nat, |i: int| 0u32)
    } else {
        mark_coset(roots_table(n, m, (t - 1) as nat), (2 * (t - 1) + 1) as u32, n, m as nat)
    }
}

/// The coefficients `c` of a polynomial of degree `deg`, multiplied by
/// `(x + r)`.
pub open spec fn mul_root(
    c: Seq<u32>,
    deg: int,
    r: u32,
    exps: Seq<u32>,
    logs: Seq<u32>,
    n: u32,
) -> Seq<u32> {
    Seq::new(
        c.len(),
        |j: int|
            if j == deg + 1 {
                1u32
            } else if 1 <= j <= deg {
                gf_mul(exps, logs, n, c[j], r) ^ c[j - 1]
            } else if j == 0 {
                gf_mul(exps, logs, n, c[0], r)
            } else {
                c[j]
            },
    )
}

/// Coefficients and degree of the product of `(x + alpha^k)` over the marked
/// `k < i`, in `len` coefficients.
pub open spec fn gen_poly(
    roots: Seq<u32>,
    exps: Seq<u32>,
    logs: Seq<u32>,
    n: u32,
    len: nat,
    i: nat,
) -> (Seq<u32>, nat)
    decreases i,
{
    if i == 0 {
        (Seq::new(len, |j: int| if j == 0 { 1u32 } else { 0u32 }), 0)
    } else {
        let prev = gen_poly(roots, exps, logs, n, len, (i - 1) as nat);
        if roots[i - 1] != 0 {
            (mul_root(prev.0, prev.1 as int, exps[i - 1], exps, logs, n), prev.1 + 1)
        } else {
            prev
        }
    }
}

/// The word that holds the coefficients `c[top], c[top - 1], ...` (`nbits` of
/// them) from its highest bit down, after the first `j` are entered into `acc`.
pub open spec fn pack_word(c: Seq<u32>, top: int, nbits: int, j: int, acc: u32) -> u32
    decreases nbits - j,
{
    if j >= nbits {
        acc
    } else {
        pack_word(
            c,
            top,
            nbits,
            j + 1,
            if c[top - j] != 0 {
                acc | (1u32 << ((31 - j) as u32))
            } else {
                acc
            },
        )
    }
}

/// The generator's `deg + 1` coefficients packed highest first into `glen`
/// words.
pub open spec fn gen_words(c: Seq<u32>, deg: int, glen: nat) -> Seq<u32> {
    Seq::new(
        glen,
        |w: int|
            if 32 * w <= deg {
                let left = deg + 1 - 32 * w;
                pack_word(c, left - 1, if left < 32 { left } else { 32 }, 0, 0)
            } else {
                0u32
            },
    )
}

/// Starting from `x`, the next `k` powers of the generator are all different
/// from 1.
pub open spec fn no_one_within(poly: u32, m: u32, x: u32, k: nat) -> bool
    decreases k,
{
    k == 0 || (x != 1 && no_one_within(poly, m, lfsr_step(poly, m, x), (k - 1) as nat))
}

/// `x` generates the multiplicative group of GF(2)[x] / poly, which has
/// `2^m - 1` elements.
pub open spec fn is_primitive(poly: u32, m: u32) -> bool {
    no_one_within(poly, m, lfsr_step(poly, m, 1), (((1u32 << m) - 2) as nat))
}

/// Parameters for which the tables can be built: a primitive polynomial of
/// degree 2 to 15 and a correction capacity that fits the field and the
/// encoder's register.
pub open spec fn valid_params(t: u32, poly: u32) -> bool {
    let m = degree(poly);
    &&& 4 <= poly <= 0xffff
    &&& 1 <= t
    &&& 2 * t + 1 < (1u32 << m)
    &&& m * t <= 32 * ECC_MAX_WORDS
    &&& is_primitive(poly, m)
}

/// State of the BCH code: Galois field tables, the generator's encoding table and
/// the scratch buffers of encoding and decoding.
pub struct EccState {
    /// Degree of the field polynomial.
    pub m: u32,
    /// Number of bit flips that can be corrected.
    pub t: u32,
    /// The field polynomial.
    pub poly: u32,
    /// `2^m - 1`, the number of nonzero field elements.
    pub n: u32,
    /// Bytes of parity produced by encoding: `ceil(m * t / 8)`.
    pub ecc_bytes: u32,
    /// Degree of the generator polynomial, the number of parity bits.
    pub ecc_bits: u32,
    /// Remainders of every byte at each of the four byte positions of a word.
    pub cyclic_tab: Vec<u32>,
    /// Syndrome buffer, `2t` entries.
    pub syn: Vec<u32>,
    /// Error locator buffer, `t + 1` entries.
    pub elp: Vec<u32>,
    /// Bit positions corrected by the last decoding.
    pub errloc: Vec<u32>,
    /// `exponents[i]` is `alpha^i`.
    pub exponents: Vec<u32>,
    /// `logarithms[alpha^i]` is `i`.
    pub logarithms: Vec<u32>,
    /// Solutions of `x^2 + x = alpha^r`, used by the quadratic root finder.
    pub elp_pre: Vec<u32>,
    /// The encoder's register after the last encoding.
    pub ecc_buf: Vec<u32>,
}

/// `ceil(a / b)`.
pub open spec fn div_ceil(a: int, b: int) -> int {
    (a + b - 1) / b
}

impl EccState {
    /// Number of 32-bit words that hold the parity bits.
    pub open spec fn words(&self) -> int {
        div_ceil(self.m * self.t, 32)
    }

    /// The field tables are well formed.
    pub open spec fn field_wf(&self) -> bool {
        &&& 2 <= self.m <= 15
        &&& self.n == low_mask(self.m)
        &&& 3 <= self.n <= 0x7fff
        &&& self.m < self.n
        &&& self.exponents@.len() == self.n + 1
        &&& self.logarithms@.len() == self.n + 1
        &&& forall|i: int| 0 <= i <= self.n ==> #[trigger] self.exponents@[i] <= self.n
        &&& forall|i: int| 0 <= i <= self.n ==> #[trigger] self.logarithms@[i] < self.n
    }

    /// The state is well formed: the invariant that every operation relies on.
    pub open spec fn wf(&self) -> bool {
        &&& self.field_wf()
        &&& 1 <= self.t
        &&& 2 * self.t < self.n
        &&& self.m * self.t <= 32 * ECC_MAX_WORDS
        &&& 2 <= self.m * self.t
        &&& 1 <= self.ecc_bits <= self.m * self.t
        &&& self.ecc_bytes == div_ceil(self.m * self.t, 8)
        &&& self.cyclic_tab@.len() == 1024 * self.words()
        &&& self.elp_pre@.len() == self.m + 1
        &&& forall|i: int| 0 <= i <= self.m ==> #[trigger] self.elp_pre@[i] <= self.n
        &&& self.ecc_buf@.len() == ECC_MAX_WORDS
    }

    /// `v mod n` for `v < 2n`.
    fn reduce(&self, v: u32) -> (r: u32)
        requires
            self.field_wf(),
            v < 2 * self.n,
        ensures
            r == v as int % self.n as int,
    {
        proof {
            if v < self.n {
                vstd::arithmetic::div_mod::lemma_small_mod(v as nat, self.n as nat);
            } else {
                vstd::arithmetic::div_mod::lemma_mod_sub_multiples_vanish(v as int, self.n as int);
                vstd::arithmetic::div_mod::lemma_small_mod((v - self.n) as nat, self.n as nat);
            }
        }
        if v < self.n {
            v
        } else {
            v - self.n
        }
    }

    /// `v mod n`, by folding the bits above `m` back in.
    fn modn(&self, v: u32) -> (r: u32)
        requires
            self.field_wf(),
        ensures
            r < self.n,
            r as int % self.n as int == v as int % self.n as int,
    {
        let n = self.n;
        let m = self.m;
        let mut v = v;
        let ghost v0 = v;
        while v >= n
            invariant
                self.field_wf(),
                n == self.n,
                m == self.m,
                v as int % n as int == v0 as int % n as int,
            decreases v,
        {
            let a = v - n;
            assert(2 <= m <= 15 && n == low_mask(m) ==> (a & n) + (a >> m) <= a
                && (a & n) + (a >> m) * (n + 1) == a) by (bit_vector);
            let q = a >> m;
            let b = a & n;
            assert((b + q * (n + 1)) % (n as int) == (b + q) % (n as int)) by {
                vstd::arithmetic::div_mod::lemma_mod_multiples_vanish(q as int, (b + q) as int, n as int);
                assert(b + q * (n + 1) == n * q + (b + q)) by (nonlinear_arith);
            }
            assert(a as int % (n as int) == v as int % (n as int)) by {
                vstd::arithmetic::div_mod::lemma_mod_sub_multiples_vanish(v as int, n as int);
            }
            v = b + q;
        }
        v
    }

    /// `logarithms[a]`.
    fn g_log(&self, a: u32) -> (r: u32)
        requires
            self.field_wf(),
            a <= self.n,
        ensures
            r == self.logarithms@[a as int],
            r < self.n,
    {
        self.logarithms[a as usize]
    }

    /// `alpha^i`.
    fn g_pow(&self, i: u32) -> (r: u32)
        requires
            self.field_wf(),
        ensures
            r == self.exponents@[i as int % self.n as int],
            r <= self.n,
    {
        let k = self.modn(i);
        proof {
            vstd::arithmetic::div_mod::lemma_small_mod(k as nat, self.n as nat);
        }
        self.exponents[k as usize]
    }

    /// Product of two field elements.
    fn g_mul(&self, a: u32, b: u32) -> (r: u32)
        requires
            self.field_wf(),
            a <= self.n,
            b <= self.n,
        ensures
            r == gf_mul(self.exponents@, self.logarithms@, self.n, a, b),
            r <= self.n,
    {
        if a > 0 && b > 0 {
            let res = (self.logarithms[a as usize] + self.logarithms[b as usize]) % self.n;
            self.exponents[res as usize]
        } else {
            0
        }
    }

    /// Square root of a field element.
    fn g_sqrt(&self, a: u32) -> (r: u32)
        requires
            self.field_wf(),
            a <= self.n,
        ensures
            r == gf_sqrt(self.exponents@, self.logarithms@, self.n, a),
            r <= self.n,
    {
        if a != 0 {
            self.exponents[(2 * self.logarithms[a as usize] % self.n) as usize]
        } else {
            0
        }
    }

    /// Quotient `a / b` of field elements, `b` nonzero.
    fn g_div(&self, a: u32, b: u32) -> (r: u32)
        requires
            self.field_wf(),
            a <= self.n,
            b <= self.n,
        ensures
            r == (if a != 0 {
                self.exponents@[(self.logarithms@[a as int] + self.n - self.logarithms@[b as int])
                    % self.n as int]
            } else {
                0
            }),
            r <= self.n,
    {
        if a != 0 {
            let k = self.reduce(self.logarithms[a as usize] + self.n - self.logarithms[b as usize]);
            self.exponents[k as usize]
        } else {
            0
        }
    }
}

/// Product of two field elements through the exponent and logarithm tables.
pub open spec fn gf_mul(exps: Seq<u32>, logs: Seq<u32>, n: u32, a: u32, b: u32) -> u32 {
    if a > 0 && b > 0 {
        exps[(logs[a as int] + logs[b as int]) % (n as int)]
    } else {
        0
    }
}

/// Square root of a field element through the exponent and logarithm tables.
pub open spec fn gf_sqrt(exps: Seq<u32>, logs: Seq<u32>, n: u32, a: u32) -> u32 {
    if a != 0 {
        exps[(2 * logs[a as int]) % (n as int)]
    } else {
        0
    }
}


/// Number of nonzero entries of `s`.
pub open spec fn count_marked(s: Seq<u32>) -> nat
    decreases s.len(),
{
    if s.len() == 0 {
        0
    } else {
        count_marked(s.drop_last()) + (if s.last() != 0 {
            1nat
        } else {
            0nat
        })
    }
}

proof fn lemma_count_update(s: Seq<u32>, r: int, v: u32)
    requires
        0 <= r < s.len(),
    ensures
        count_marked(s.update(r, v)) <= count_marked(s) + 1,
    decreases s.len(),
{
    let u = s.update(r, v);
    if r == s.len() - 1 {
        assert(u.drop_last() =~= s.drop_last());
    } else {
        assert(u.drop_last() =~= s.drop_last().update(r, v));
        lemma_count_update(s.drop_last(), r, v);
    }
}

proof fn lemma_count_mark(s: Seq<u32>, r: int, v: u32)
    requires
        0 <= r < s.len(),
        v != 0,
    ensures
        count_marked(s.update(r, v)) >= count_marked(s),
        count_marked(s.update(r, v)) >= 1,
    decreases s.len(),
{
    let u = s.update(r, v);
    if r == s.len() - 1 {
        assert(u.drop_last() =~= s.drop_last());
    } else {
        assert(u.drop_last() =~= s.drop_last().update(r, v));
        lemma_count_mark(s.drop_last(), r, v);
    }
}

proof fn lemma_count_prefix(s: Seq<u32>, i: int)
    requires
        0 <= i <= s.len(),
    ensures
        count_marked(s.take(i)) <= count_marked(s),
    decreases s.len(),
{
    if i == s.len() {
        assert(s.take(i) =~= s);
    } else {
        assert(s.take(i) =~= s.drop_last().take(i));
        lemma_count_prefix(s.drop_last(), i);
    }
}

proof fn lemma_xor_bound(a: u32, b: u32, m: u32)
    requires
        m < 16,
        a <= low_mask(m),
        b <= low_mask(m),
    ensures
        a ^ b <= low_mask(m),
{
    assert(m < 16 && a <= low_mask(m) && b <= low_mask(m) ==> a ^ b <= low_mask(m))
        by (bit_vector);
}

proof fn lemma_field_size(poly: u32, m: u32)
    requires
        4 <= poly <= 0xffff,
        is_top_bit(poly, m),
    ensures
        2 <= m <= 15,
        low_mask(m) + 1 == (1u32 << m),
        3 <= low_mask(m) <= 0x7fff,
        m < low_mask(m),
        (1u32 << m) - 2 == low_mask(m) - 1,
{
    assert(4 <= poly <= 0xffff && m < 32 && poly >> m == 1u32 ==> 2 <= m <= 15) by (bit_vector);
    assert(2 <= m <= 15 ==> low_mask(m) + 1 == (1u32 << m) && 3 <= low_mask(m) <= 0x7fff && m
        < low_mask(m)) by (bit_vector);
}

proof fn lemma_step_bound(poly: u32, m: u32, x: u32)
    requires
        2 <= m <= 15,
        poly >> m == 1u32,
        x <= low_mask(m),
    ensures
        lfsr_step(poly, m, x) <= low_mask(m),
        lfsr_step(poly, m, x) == (if ((x * 2) as u32) & (1u32 << m) != 0 {
            ((x * 2) as u32) ^ poly
        } else {
            (x * 2) as u32
        }),
{
    assert(2 <= m <= 15 && poly >> m == 1u32 && x <= low_mask(m) ==> (if ((x * 2) as u32) & (1u32
        << m) != 0 {
        ((x * 2) as u32) ^ poly
    } else {
        (x * 2) as u32
    }) <= low_mask(m)) by (bit_vector);
}

/// The generator polynomial of the code that corrects `t` bit flips over the
/// field of `poly`: its coefficients (in `m * t + 1` slots) and its degree.
pub open spec fn init_gen(t: u32, poly: u32) -> (Seq<u32>, nat) {
    let m = degree(poly);
    let n = low_mask(m);
    gen_poly(
        roots_table(n, m, t as nat),
        exp_table(poly, m, n),
        log_table(poly, m, n),
        n,
        (m * t + 1) as nat,
        n as nat,
    )
}

/// The encoder's table of the code that corrects `t` bit flips over the field
/// of `poly`.
pub open spec fn init_cyclic(t: u32, poly: u32) -> Seq<u32> {
    let mt = degree(poly) * t;
    let g = init_gen(t, poly);
    cyclic_table(
        gen_words(g.0, g.1 as int, ((mt + 1 + 31) / 32) as nat),
        ((g.1 + 1 + 31) / 32) as u32,
        ((g.1 + 31) / 32) as u32,
        ((mt + 31) / 32) as u32,
    )
}

/// Builds the tables of the code that corrects `t` bit flips over the field of
/// the primitive polynomial `poly`.
pub fn bch_init(t: u32, poly: u32) -> (st: EccState)
    requires
        valid_params(t, poly),
    ensures
        st.wf(),
        st.m == degree(poly),
        st.t == t,
        st.poly == poly,
        st.n as int == (1u32 << st.m) - 1,
        st.ecc_bytes == div_ceil(st.m * t, 8),
        st.syn@ == Seq::new((2 * t) as nat, |i: int| 0u32),
        st.elp@ == Seq::new((t + 1) as nat, |i: int| 0u32),
        st.errloc@ == Seq::new(t as nat, |i: int| 0u32),
        st.exponents@ == exp_table(poly, st.m, st.n),
        st.logarithms@ == log_table(poly, st.m, st.n),
        st.ecc_bits == init_gen(t, poly).1,
        st.cyclic_tab@ == init_cyclic(t, poly),
        st.elp_pre@ == elp_pre_table(st.exponents@, st.logarithms@, st.n, st.m),
{
    let m = top_bit(poly);
    proof {
        lemma_field_size(poly, m);
    }
    let n: u32 = (1u32 << m) - 1;
    let ecc_bytes = (m * t + 7) / 8;
    let syn: Vec<u32> = vec![0; (2 * t) as usize];
    let elp: Vec<u32> = vec![0; (t + 1) as usize];
    let errloc: Vec<u32> = vec![0; t as usize];
    assert(syn@ =~= Seq::new((2 * t) as nat, |i: int| 0u32));
    assert(elp@ =~= Seq::new((t + 1) as nat, |i: int| 0u32));
    assert(errloc@ =~= Seq::new(t as nat, |i: int| 0u32));

    let k: u32 = 1u32 << m;
    let mut exponents: Vec<u32> = vec![0; (n + 1) as usize];
    let mut logarithms: Vec<u32> = vec![0; (n + 1) as usize];
    let mut x: u32 = 1;
    let mut i: u32 = 0;
    while i < n
        invariant
            2 <= m <= 15,
            poly >> m == 1u32,
            n == low_mask(m),
            k == 1u32 << m,
            3 <= n <= 0x7fff,
            i <= n,
            x <= n,
            exponents@.len() == n + 1,
            logarithms@.len() == n + 1,
            forall|j: int| 0 <= j <= n ==> #[trigger] exponents@[j] <= n,
            forall|j: int| 0 <= j <= n ==> #[trigger] logarithms@[j] < n,
            i == 0 ==> x == 1,
            i >= 1 ==> no_one_within(poly, m, x, (n - i) as nat),
            i >= 1 ==> exponents@[0] == 1,
            is_primitive(poly, m),
            (1u32 << m) - 2 == n - 1,
            x == lfsr_pow(poly, m, i as nat),
            forall|j: int| 0 <= j < i ==> exponents@[j] == lfsr_pow(poly, m, j as nat),
            logarithms@ == log_prefix(poly, m, n, i as nat),
        decreases n - i,
    {
        exponents.set(i as usize, x);
        logarithms.set(x as usize, i);
        if i != 0 && x == 1 {
            assert(false);
        }
        proof {
            lemma_step_bound(poly, m, x);
        }
        x = x * 2;
        if x & k != 0 {
            x = x ^ poly;
        }
        i = i + 1;
    }
    logarithms.set(0, 0);
    exponents.set(n as usize, 1);
    assert(exponents@ =~= exp_table(poly, m, n));
    assert(logarithms@ =~= log_table(poly, m, n));

    let mut st = EccState {
        m,
        t,
        poly,
        n,
        ecc_bytes,
        ecc_bits: 0,
        cyclic_tab: Vec::new(),
        syn,
        elp,
        errloc,
        exponents,
        logarithms,
        elp_pre: vec![0; (m + 1) as usize],
        ecc_buf: vec![0; ECC_MAX_WORDS],
    };
    assert(st.field_wf());
    proof {
        assert(2 * t + 1 < (1u32 << m));
    }

    // mark the roots of the generator: the conjugates of alpha^(2i+1), i < t
    let mut roots: Vec<u32> = vec![0; (n + 1) as usize];
    assert(count_marked(roots@) == 0) by {
        assert forall|len: nat| len <= roots@.len() implies count_marked(#[trigger] roots@.take(len as int)) == 0 by {
            lemma_zero_count(roots@, len);
        }
        assert(roots@.take(roots@.len() as int) =~= roots@);
    }
    let mut i: u32 = 0;
    while i < t
        invariant
            st.field_wf(),
            n == st.n,
            m == st.m,
            i <= t,
            2 * t < n,
            roots@.len() == n + 1,
            count_marked(roots@) <= m * i,
            i >= 1 ==> count_marked(roots@) >= 1,
            roots@[n as int] == 0,
            roots@ == roots_table(n, m, i as nat),
        decreases t - i,
    {
        let ghost target = roots_table(n, m, (i + 1) as nat);
        let mut r: u32 = 2 * i + 1;
        let mut j: u32 = 0;
        while j < m
            invariant
                st.field_wf(),
                n == st.n,
                m == st.m,
                i < t,
                j <= m,
                r < n,
                roots@.len() == n + 1,
                count_marked(roots@) <= m * i + j,
                (i >= 1 || j >= 1) ==> count_marked(roots@) >= 1,
                roots@[n as int] == 0,
                mark_coset(roots@, r, n, (m - j) as nat) == target,
            decreases m - j,
        {
            proof {
                lemma_count_update(roots@, r as int, 1);
                lemma_count_mark(roots@, r as int, 1);
            }
            roots.set(r as usize, 1);
            r = (2 * r) % n;
            j = j + 1;
        }
        assert(m * i + m == m * (i + 1)) by (nonlinear_arith);
        i = i + 1;
    }

    // the generator polynomial: the product of (x - root) over the marked roots
    let mt = m * t;
    assert(2 <= mt) by (nonlinear_arith)
        requires
            mt == m * t,
            2 <= m,
            1 <= t,
    ;
    let mut c: Vec<u32> = vec![0; (mt + 1) as usize];
    c.set(0, 1);
    let mut deg: u32 = 0;
    let mut i: u32 = 0;
    assert(roots@.take(0) =~= Seq::<u32>::empty());
    while i < n
        invariant
            st.field_wf(),
            n == st.n,
            m == st.m,
            mt == m * t,
            i <= n,
            roots@.len() == n + 1,
            count_marked(roots@) <= mt,
            count_marked(roots@) >= 1,
            roots@[n as int] == 0,
            deg == count_marked(roots@.take(i as int)),
            c@.len() == mt + 1,
            c@[deg as int] == 1,
            forall|j: int| 0 <= j <= mt ==> #[trigger] c@[j] <= n,
            (c@, deg as nat) == gen_poly(
                roots@,
                st.exponents@,
                st.logarithms@,
                n,
                (mt + 1) as nat,
                i as nat,
            ),
        decreases n - i,
    {
        proof {
            lemma_count_prefix(roots@, i + 1);
            assert(roots@.take(i + 1).drop_last() =~= roots@.take(i as int));
        }
        if roots[i as usize] != 0 {
            let r = st.exponents[i as usize];
            let ghost c_old = c@;
            let ghost target = mul_root(c_old, deg as int, r, st.exponents@, st.logarithms@, n);
            c.set((deg + 1) as usize, 1);
            let mut j: u32 = deg;
            while j >= 1
                invariant
                    st.field_wf(),
                    n == st.n,
                    m == st.m,
                    deg < mt,
                    j <= deg,
                    r <= n,
                    c@.len() == mt + 1,
                    c@[deg + 1] == 1,
                    forall|jj: int| 0 <= jj <= mt ==> #[trigger] c@[jj] <= n,
                    c_old.len() == mt + 1,
                    target == mul_root(c_old, deg as int, r, st.exponents@, st.logarithms@, n),
                    forall|jj: int| j < jj <= deg ==> #[trigger] c@[jj] == target[jj],
                    forall|jj: int| 0 <= jj <= j ==> #[trigger] c@[jj] == c_old[jj],
                    forall|jj: int| deg + 1 < jj <= mt ==> #[trigger] c@[jj] == c_old[jj],
                decreases j,
            {
                let prod = st.g_mul(c[j as usize], r);
                proof {
                    lemma_xor_bound(prod, c@[j - 1], m);
                }
                c.set(j as usize, prod ^ c[(j - 1) as usize]);
                j = j - 1;
            }
            let c0 = st.g_mul(c[0], r);
            c.set(0, c0);
            assert(c@ =~= target);
            deg = deg + 1;
        }
        i = i + 1;
    }
    proof {
        assert(roots@.drop_last() =~= roots@.take(n as int));
        assert(count_marked(roots@) == deg);
    }

    // pack the coefficients, highest first, into 32-bit words
    let glen = ((mt + 1 + 31) / 32) as usize;
    let mut genpoly: Vec<u32> = vec![0; glen];
    let mut left: u32 = deg + 1;
    let mut w: usize = 0;
    while left > 0
        invariant
            deg <= mt,
            mt <= 32 * ECC_MAX_WORDS,
            c@.len() == mt + 1,
            c@[deg as int] == 1,
            1 <= deg,
            genpoly@.len() == glen,
            glen == (mt + 1 + 31) / 32,
            left <= deg + 1,
            left > 0 ==> left + 32 * w == deg + 1,
            w > 0 || left == deg + 1,
            w > 0 ==> genpoly@[0] >> 31u32 == 1u32,
            left == 0 ==> 32 * w >= deg + 1,
            forall|w2: int|
                0 <= w2 < w ==> genpoly@[w2] == gen_words(c@, deg as int, glen as nat)[w2],
            forall|w2: int| w <= w2 < glen ==> genpoly@[w2] == 0,
        decreases left,
    {
        let nbits: u32 = if left < 32 {
            left
        } else {
            32
        };
        let mut word: u32 = 0;
        let mut j: u32 = 0;
        while j < nbits
            invariant
                nbits <= left,
                nbits <= 32,
                left <= deg + 1,
                c@.len() == mt + 1,
                deg <= mt,
                c@[deg as int] == 1,
                left + 32 * w == deg + 1,
                (w == 0 && j > 0) ==> word >> 31u32 == 1u32,
                pack_word(c@, left - 1, nbits as int, j as int, word) == pack_word(
                    c@,
                    left - 1,
                    nbits as int,
                    0,
                    0,
                ),
            decreases nbits - j,
        {
            if c[(left - 1 - j) as usize] != 0 {
                let ghost old_word = word;
                word = word | (1u32 << (31 - j));
                assert(j < 32 && (j == 0 || old_word >> 31u32 == 1u32) ==> (old_word | (1u32 << ((31
                    - j) as u32))) >> 31u32 == 1u32) by (bit_vector);
            }
            j = j + 1;
        }
        assert(word == gen_words(c@, deg as int, glen as nat)[w as int]);
        genpoly.set(w, word);
        w = w + 1;
        left = left - nbits;
    }
    assert(genpoly@ =~= gen_words(c@, deg as int, glen as nat));
    assert(roots@ == roots_table(n, m, t as nat));
    assert((c@, deg as nat) == init_gen(t, poly));
    st.ecc_bits = deg;
    st.cyclic_tab = build_cyclic(mt, deg, &genpoly);
    st.elp_pre = build_elp_pre(&st);
    st
}

proof fn lemma_reduce_step(data: u32, g0: u32, d: u32)
    requires
        d < 32,
        data >> d == 1u32,
        g0 >> 31u32 == 1u32,
    ensures
        data ^ (g0 >> ((31 - d) as u32)) < data,
{
    assert(d < 32 && data >> d == 1u32 && g0 >> 31u32 == 1u32 ==> data ^ (g0 >> ((31 - d) as u32))
        < data) by (bit_vector);
}

/// What word `j` of a table row receives when bit `d` of the dividend is
/// cleared by the generator `g` (packed in `plen` words).
pub open spec fn hilo(g: Seq<u32>, plen: u32, d: u32, j: int) -> u32 {
    (if d < 31 {
        g[j] << ((d + 1) as u32)
    } else {
        0u32
    }) | (if j + 1 < plen {
        g[j + 1] >> ((31 - d) as u32)
    } else {
        0u32
    })
}

/// Word `j` of a table row: `acc` with the contributions of the remaining
/// steps (at most `fuel`) of the division of `data` by the generator.
pub open spec fn row_acc(g: Seq<u32>, plen: u32, data: u32, j: int, acc: u32, fuel: nat) -> u32
    decreases fuel,
{
    if fuel == 0 || data == 0 {
        acc
    } else {
        let d = degree(data);
        row_acc(
            g,
            plen,
            data ^ (g[0] >> ((31 - d) as u32)),
            j,
            acc ^ hilo(g, plen, d, j),
            (fuel - 1) as nat,
        )
    }
}

/// Word `j` of the table row of byte `i` at byte position `b` of a word.
pub open spec fn cyc_val(g: Seq<u32>, plen: u32, ecclen: u32, i: int, b: int, j: int) -> u32 {
    if j < ecclen {
        row_acc(g, plen, ((i as u32) << ((8 * b) as u32)) as u32, j, 0, 32)
    } else {
        0u32
    }
}

/// The encoder's table: 1024 rows of `l` words, row `b * 256 + i` for byte `i`
/// at byte position `b`.
pub open spec fn cyclic_table(g: Seq<u32>, plen: u32, ecclen: u32, l: u32) -> Seq<u32> {
    Seq::new(
        (1024 * l) as nat,
        |p: int| cyc_val(g, plen, ecclen, (p / (l as int)) % 256, (p / (l as int)) / 256, p % (l as int)),
    )
}

proof fn lemma_row_of(p: int, row: int, l: int)
    requires
        l > 0,
        0 <= row,
        0 <= p,
    ensures
        (row * l <= p < row * l + l) <==> (p / l == row),
        p / l == row ==> p % l == p - row * l,
{
    vstd::arithmetic::div_mod::lemma_fundamental_div_mod(p, l);
    let q = p / l;
    let r = p % l;
    assert(0 <= r < l);
    assert(p == l * q + r);
    if row * l <= p < row * l + l {
        assert(q == row) by (nonlinear_arith)
            requires
                row * l <= p < row * l + l,
                p == l * q + r,
                0 <= r < l,
                l > 0,
        ;
    }
    if q == row {
        assert(row * l <= p < row * l + l && r == p - row * l) by (nonlinear_arith)
            requires
                q == row,
                p == l * q + r,
                0 <= r < l,
        ;
    }
}

proof fn lemma_row_bound(p: int, l: int)
    requires
        l > 0,
        0 <= p < 1024 * l,
    ensures
        0 <= p / l < 1024,
{
    vstd::arithmetic::div_mod::lemma_fundamental_div_mod(p, l);
    assert(0 <= p / l < 1024) by (nonlinear_arith)
        requires
            0 <= p < 1024 * l,
            l > 0,
            p == l * (p / l) + p % l,
            0 <= p % l < l,
    ;
}

proof fn lemma_reduce_shrinks(data: u32, g0: u32, d: u32, f: u32)
    requires
        d < 32,
        data >> d == 1u32,
        g0 >> 31u32 == 1u32,
        f <= 32,
        f == 32 || data >> f == 0,
    ensures
        f >= 1,
        d < f,
        f - 1 == 32 || (data ^ (g0 >> ((31 - d) as u32))) >> ((f - 1) as u32) == 0,
{
    assert(d < 32 && data >> d == 1u32 && g0 >> 31u32 == 1u32 && f <= 32 && (f == 32 || data >> f
        == 0) ==> f >= 1 && d < f && (f - 1 == 32 || (data ^ (g0 >> ((31 - d) as u32))) >> ((f
        - 1) as u32) == 0)) by (bit_vector);
}

/// The encoder's table: for each byte value and each of the four byte positions
/// of a word, the remainder that the byte leaves when divided by the generator
/// `g` (packed highest coefficient first, `ecc_bits + 1` coefficients).
fn build_cyclic(mt: u32, ecc_bits: u32, g: &Vec<u32>) -> (tab: Vec<u32>)
    requires
        ecc_bits <= mt <= 32 * ECC_MAX_WORDS,
        1 <= mt,
        g@.len() == (mt + 1 + 31) / 32,
        g@[0] >> 31u32 == 1u32,
    ensures
        tab@.len() == 1024 * div_ceil(mt as int, 32),
        tab@ == cyclic_table(
            g@,
            ((ecc_bits + 1 + 31) / 32) as u32,
            ((ecc_bits + 31) / 32) as u32,
            ((mt + 31) / 32) as u32,
        ),
{
    let l = (mt + 31) / 32;
    let plen = (ecc_bits + 1 + 31) / 32;
    let ecclen = (ecc_bits + 31) / 32;
    assert(ecclen <= l && 1 <= l <= 62 && plen <= g@.len() && ecclen <= g@.len());
    let ghost spec_tab = cyclic_table(g@, plen, ecclen, l);
    let ghost li = l as int;
    let mut tab: Vec<u32> = vec![0; (4 * 256 * l) as usize];
    let mut i: u32 = 0;
    while i < 256
        invariant
            l == (mt + 31) / 32,
            li == l,
            1 <= l <= 62,
            g@.len() >= 1,
            ecclen <= l,
            ecclen <= g@.len(),
            plen <= g@.len(),
            g@[0] >> 31u32 == 1u32,
            tab@.len() == 1024 * l,
            spec_tab == cyclic_table(g@, plen, ecclen, l),
            i <= 256,
            forall|p: int|
                0 <= p < 1024 * l ==> #[trigger] tab@[p] == (if (p / li) % 256 < i {
                    spec_tab[p]
                } else {
                    0u32
                }),
        decreases 256 - i,
    {
        let mut b: u32 = 0;
        while b < 4
            invariant
                i < 256,
                li == l,
                1 <= l <= 62,
                g@.len() >= 1,
                ecclen <= l,
                ecclen <= g@.len(),
                plen <= g@.len(),
                g@[0] >> 31u32 == 1u32,
                tab@.len() == 1024 * l,
                spec_tab == cyclic_table(g@, plen, ecclen, l),
                b <= 4,
                forall|p: int|
                    0 <= p < 1024 * l ==> #[trigger] tab@[p] == (if (p / li) % 256 < i || ((p / li)
                        % 256 == i && (p / li) / 256 < b) {
                        spec_tab[p]
                    } else {
                        0u32
                    }),
            decreases 4 - b,
        {
            assert((b * 256 + i) * l + l <= 1024 * l) by (nonlinear_arith)
                requires
                    b < 4,
                    i < 256,
            ;
            let row = b * 256 + i;
            let offset = row * l;
            assert(row % 256 == i && row / 256 == b);
            let mut data: u32 = i << (8 * b);
            let ghost data0 = data;
            let ghost mut fuel: nat = 32;
            while data != 0
                invariant
                    i < 256,
                    b < 4,
                    row == b * 256 + i,
                    row % 256 == i && row / 256 == b,
                    offset == row * l,
                    offset + l <= 1024 * l,
                    1024 * l <= 63488,
                    li == l,
                    1 <= l <= 62,
                    g@.len() >= 1,
                    ecclen <= l,
                    ecclen <= g@.len(),
                    plen <= g@.len(),
                    g@[0] >> 31u32 == 1u32,
                    tab@.len() == 1024 * l,
                    spec_tab == cyclic_table(g@, plen, ecclen, l),
                    data0 == ((i as u32) << ((8 * b) as u32)) as u32,
                    fuel <= 32,
                    fuel == 32 || data >> (fuel as u32) == 0,
                    forall|p: int|
                        0 <= p < 1024 * l ==> #[trigger] tab@[p] == (if p / li == row {
                            if p % li < ecclen {
                                tab@[p]
                            } else {
                                0u32
                            }
                        } else if (p / li) % 256 < i || ((p / li) % 256 == i && (p / li) / 256
                            < b) {
                            spec_tab[p]
                        } else {
                            0u32
                        }),
                    forall|p: int|
                        0 <= p < 1024 * l && p / li == row && p % li < ecclen ==> row_acc(
                            g@,
                            plen,
                            data,
                            p % li,
                            #[trigger] tab@[p],
                            fuel,
                        ) == row_acc(g@, plen, data0, p % li, 0, 32),
                decreases data,
            {
                let d = top_bit(data);
                proof {
                    lemma_reduce_step(data, g@[0], d);
                    lemma_reduce_shrinks(data, g@[0], d, fuel as u32);
                }
                let ghost data_before = data;
                let ghost tab_before = tab@;
                data = data ^ (g[0] >> (31 - d));
                let mut j: u32 = 0;
                while j < ecclen
                    invariant
                        offset + l <= 1024 * l,
                        1024 * l <= 63488,
                        j <= ecclen,
                        ecclen <= l,
                        ecclen <= g@.len(),
                        plen <= g@.len(),
                        d < 32,
                        tab@.len() == 1024 * l,
                        tab_before.len() == 1024 * l,
                        forall|p: int|
                            0 <= p < 1024 * l ==> #[trigger] tab@[p] == (if offset <= p < offset
                                + j {
                                tab_before[p] ^ hilo(g@, plen, d, p - offset)
                            } else {
                                tab_before[p]
                            }),
                    decreases ecclen - j,
                {
                    let hi = if d < 31 {
                        g[j as usize] << (d + 1)
                    } else {
                        0
                    };
                    let lo = if j + 1 < plen {
                        g[(j + 1) as usize] >> (31 - d)
                    } else {
                        0
                    };
                    let idx = (j + offset) as usize;
                    assert(hi | lo == hilo(g@, plen, d, j as int));
                    let v = tab[idx] ^ (hi | lo);
                    tab.set(idx, v);
                    j = j + 1;
                }
                proof {
                    fuel = (fuel - 1) as nat;
                    assert forall|p: int|
                        0 <= p < 1024 * l && p / li == row && p % li < ecclen implies row_acc(
                        g@,
                        plen,
                        data,
                        p % li,
                        #[trigger] tab@[p],
                        fuel,
                    ) == row_acc(g@, plen, data0, p % li, 0, 32) by {
                        lemma_row_of(p, row as int, li);
                        assert(tab@[p] == tab_before[p] ^ hilo(g@, plen, d, p % li));
                        assert(d == degree(data_before));
                    }
                    assert forall|p: int| 0 <= p < 1024 * l implies #[trigger] tab@[p] == (if p / li
                        == row {
                        if p % li < ecclen {
                            tab@[p]
                        } else {
                            0u32
                        }
                    } else if (p / li) % 256 < i || ((p / li) % 256 == i && (p / li) / 256 < b) {
                        spec_tab[p]
                    } else {
                        0u32
                    }) by {
                        lemma_row_of(p, row as int, li);
                        if p / li == row && p % li >= ecclen {
                            assert(tab@[p] == tab_before[p]);
                        }
                        if p / li != row {
                            assert(tab@[p] == tab_before[p]);
                        }
                    }
                }
            }
            proof {
                assert forall|p: int|
                    0 <= p < 1024 * l implies #[trigger] tab@[p] == (if (p / li) % 256 < i || ((p
                    / li) % 256 == i && (p / li) / 256 < b + 1) {
                    spec_tab[p]
                } else {
                    0u32
                }) by {
                    lemma_row_of(p, row as int, li);
                    if p / li == row {
                        let j = p % li;
                        assert(spec_tab[p] == cyc_val(g@, plen, ecclen, i as int, b as int, j));
                        if j < ecclen {
                            assert(row_acc(g@, plen, data, j, tab@[p], fuel) == tab@[p]);
                        }
                    } else {
                        assert((p / li) % 256 != i || (p / li) / 256 != b) by {
                            assert(p / li == ((p / li) / 256) * 256 + (p / li) % 256);
                        }
                    }
                }
            }
            b = b + 1;
        }
        proof {
            assert forall|p: int| 0 <= p < 1024 * l implies #[trigger] tab@[p] == (if (p / li) % 256
                < i + 1 {
                spec_tab[p]
            } else {
                0u32
            }) by {
                lemma_row_bound(p, li);
            }
        }
        i = i + 1;
    }
    proof {
        assert forall|p: int| 0 <= p < 1024 * l implies #[trigger] tab@[p] == spec_tab[p] by {
            lemma_row_bound(p, li);
        }
        assert(tab@ =~= spec_tab);
    }
    tab
}

/// `sum` plus `alpha^(i 2^j')` for each `j' < j`.
pub open spec fn trace_fold(exps: Seq<u32>, n: u32, sum: u32, i: u32, j: nat) -> u32
    decreases j,
{
    if j == 0 {
        sum
    } else {
        trace_fold(exps, n, sum, i, (j - 1) as nat) ^ exps[((i * (1u32 << ((j - 1) as u32))) as int)
            % (n as int)]
    }
}

/// The first power `alpha^i`, `i >= i0`, at which the running sum of the
/// traces becomes nonzero (0 if none below `m`).
pub open spec fn aexp_search(exps: Seq<u32>, n: u32, m: u32, i: nat, sum: u32) -> u32
    decreases m - i,
{
    if i >= m {
        0
    } else {
        let s2 = trace_fold(exps, n, sum, i as u32, m as nat);
        if s2 != 0 {
            exps[i as int]
        } else {
            aexp_search(exps, n, m, i + 1, s2)
        }
    }
}

/// State of the quadratic table: solutions so far, which entries are set, how
/// many remain.
pub type PreState = (Seq<u32>, Seq<u32>, u32);

/// One candidate `x` for the quadratic table.
pub open spec fn pre_step(
    exps: Seq<u32>,
    logs: Seq<u32>,
    n: u32,
    m: u32,
    aexp: u32,
    p: PreState,
    x: u32,
) -> PreState {
    let y = gf_sqrt(exps, logs, n, x) ^ x;
    let r = logs[y as int];
    if y != 0 && r < m && p.1[r as int] == 0 {
        (p.0.update(r as int, x), p.1.update(r as int, 1), (p.2 - 1) as u32)
    } else {
        let y2 = y ^ aexp;
        let r2 = logs[y2 as int];
        if y2 != 0 && r2 < m && p.1[r2 as int] == 0 {
            (p.0.update(r2 as int, x), p.1.update(r2 as int, 1), (p.2 - 1) as u32)
        } else {
            p
        }
    }
}

/// The quadratic table after the candidates below `x`.
pub open spec fn pre_state(exps: Seq<u32>, logs: Seq<u32>, n: u32, m: u32, aexp: u32, x: nat) -> PreState
    decreases x,
{
    if x == 0 {
        (Seq::new((m + 1) as nat, |k: int| 0u32), Seq::new(31, |k: int| 0u32), m)
    } else {
        let p = pre_state(exps, logs, n, m, aexp, (x - 1) as nat);
        if p.2 != 0 {
            pre_step(exps, logs, n, m, aexp, p, (x - 1) as u32)
        } else {
            p
        }
    }
}

/// The quadratic table of the field with these exponent and logarithm tables.
pub open spec fn elp_pre_table(exps: Seq<u32>, logs: Seq<u32>, n: u32, m: u32) -> Seq<u32> {
    pre_state(exps, logs, n, m, aexp_search(exps, n, m, 0, 0), (n + 1) as nat).0
}

proof fn lemma_pre_stays(exps: Seq<u32>, logs: Seq<u32>, n: u32, m: u32, aexp: u32, x: nat, y: nat)
    requires
        x <= y,
        pre_state(exps, logs, n, m, aexp, x).2 == 0,
    ensures
        pre_state(exps, logs, n, m, aexp, y) == pre_state(exps, logs, n, m, aexp, x),
    decreases y,
{
    if y > x {
        lemma_pre_stays(exps, logs, n, m, aexp, x, (y - 1) as nat);
    }
}

/// For each `r < m`, an `x` with `sqrt(x) + x` equal to `alpha^r`, or to
/// `alpha^r + a` where `a` is the first power whose trace is nonzero.
fn build_elp_pre(st: &EccState) -> (pre: Vec<u32>)
    requires
        st.field_wf(),
    ensures
        pre@.len() == st.m + 1,
        forall|i: int| 0 <= i <= st.m ==> #[trigger] pre@[i] <= st.n,
        pre@ == elp_pre_table(st.exponents@, st.logarithms@, st.n, st.m),
{
    let m = st.m;
    let n = st.n;
    let mut elp_pre: Vec<u32> = vec![0; (m + 1) as usize];
    let mut sum: u32 = 0;
    let mut aexp: u32 = 0;
    let ghost target = aexp_search(st.exponents@, n, m, 0, 0);
    let mut i: u32 = 0;
    while i < m
        invariant_except_break
            aexp == 0,
            aexp_search(st.exponents@, n, m, i as nat, sum) == target,
        invariant
            st.field_wf(),
            m == st.m,
            n == st.n,
            sum <= n,
            aexp <= n,
            i <= m,
        ensures
            aexp == target,
        decreases m - i,
    {
        let ghost sum0 = sum;
        let mut j: u32 = 0;
        while j < m
            invariant
                st.field_wf(),
                m == st.m,
                n == st.n,
                i < m,
                sum <= n,
                j <= m,
                sum == trace_fold(st.exponents@, n, sum0, i, j as nat),
            decreases m - j,
        {
            assert(j < 15 ==> (1u32 << j) <= 0x4000) by (bit_vector);
            assert(i * (1u32 << j) <= 15 * 0x4000) by (nonlinear_arith)
                requires
                    i < 15,
                    (1u32 << j) <= 0x4000,
            ;
            let p = st.g_pow(i * (1u32 << j));
            proof {
                lemma_xor_bound(sum, p, m);
            }
            sum = sum ^ p;
            j = j + 1;
        }
        if sum != 0 {
            aexp = st.exponents[i as usize];
            break;
        }
        i = i + 1;
    }
    let mut precomp: Vec<u32> = vec![0; 31];
    let mut remaining: u32 = m;
    let mut x: u32 = 0;
    let ghost ex = st.exponents@;
    let ghost lg = st.logarithms@;
    assert(elp_pre@ =~= Seq::new((m + 1) as nat, |k: int| 0u32));
    assert(precomp@ =~= Seq::new(31, |k: int| 0u32));
    while x <= n && remaining != 0
        invariant
            ex == st.exponents@,
            lg == st.logarithms@,
            x <= n + 1,
            (elp_pre@, precomp@, remaining) == pre_state(ex, lg, n, m, aexp, x as nat),
            st.field_wf(),
            m == st.m,
            n == st.n,
            aexp <= n,
            precomp@.len() == 31,
            elp_pre@.len() == m + 1,
            forall|k: int| 0 <= k <= m ==> #[trigger] elp_pre@[k] <= n,
        decreases n + 1 - x,
    {
        let s = st.g_sqrt(x);
        proof {
            lemma_xor_bound(s, x, m);
        }
        let y = s ^ x;
        let r = st.logarithms[y as usize];
        if y != 0 && r < m && precomp[r as usize] == 0 {
            elp_pre.set(r as usize, x);
            precomp.set(r as usize, 1);
            remaining = remaining - 1;
        } else {
            proof {
                lemma_xor_bound(y, aexp, m);
            }
            let y = y ^ aexp;
            let r = st.logarithms[y as usize];
            if y != 0 && r < m && precomp[r as usize] == 0 {
                elp_pre.set(r as usize, x);
                precomp.set(r as usize, 1);
                remaining = remaining - 1;
            }
        }
        x = x + 1;
    }
    proof {
        if x <= n {
            lemma_pre_stays(ex, lg, n, m, aexp, x as nat, (n + 1) as nat);
        }
    }
    elp_pre
}

proof fn lemma_zero_count(s: Seq<u32>, len: nat)
    requires
        len <= s.len(),
        forall|i: int| 0 <= i < s.len() ==> s[i] == 0,
    ensures
        count_marked(s.take(len as int)) == 0,
    decreases len,
{
    if len > 0 {
        assert(s.take(len as int).drop_last() =~= s.take(len - 1));
        lemma_zero_count(s, (len - 1) as nat);
    }
}


/// The big-endian 32-bit word made of the four bytes of `d` at `off`.
pub open spec fn load_be(d: Seq<u8>, off: int) -> u32 {
    ((d[off] as u32) << 24u32) | ((d[off + 1] as u32) << 16u32) | ((d[off + 2] as u32) << 8u32) | (
    d[off + 3] as u32)
}

/// Where the rows of the four bytes of `w` start in the table, for rows of
/// `s` words.
pub open spec fn row0(s: u32, w: u32) -> int {
    s * (w & 0xff)
}

pub open spec fn row1(s: u32, w: u32) -> int {
    256 * s + s * ((w >> 8u32) & 0xff)
}

pub open spec fn row2(s: u32, w: u32) -> int {
    512 * s + s * ((w >> 16u32) & 0xff)
}

pub open spec fn row3(s: u32, w: u32) -> int {
    768 * s + s * ((w >> 24u32) & 0xff)
}

/// The register of `l + 1` words after it takes in the whole data word `w0`.
pub open spec fn word_step(tab: Seq<u32>, l: u32, r: Seq<u32>, w0: u32) -> Seq<u32> {
    let w = w0 ^ r[0];
    let s = (l + 1) as u32;
    Seq::new(
        r.len(),
        |i: int|
            if i < l {
                r[i + 1] ^ tab[row0(s, w) + i] ^ tab[row1(s, w) + i] ^ tab[row2(s, w) + i] ^ tab[row3(
                    s,
                    w,
                ) + i]
            } else if i == l {
                tab[row0(s, w) + i] ^ tab[row1(s, w) + i] ^ tab[row2(s, w) + i] ^ tab[row3(s, w) + i]
            } else {
                r[i]
            },
    )
}

/// The register after it takes in the single byte `b`.
pub open spec fn byte_step(tab: Seq<u32>, l: u32, r: Seq<u32>, b: u8) -> Seq<u32> {
    let e = tab[(l + 1) * (((r[0] >> 24u32) ^ (b as u32)) & 0xff)];
    Seq::new(
        r.len(),
        |i: int|
            if i < l {
                ((r[i] << 8u32) | (r[i + 1] >> 24u32)) ^ e
            } else if i == l {
                (r[i] << 8u32) ^ e
            } else {
                r[i]
            },
    )
}

/// The register after the first `k` whole words of `data`.
pub open spec fn reg_words(tab: Seq<u32>, l: u32, data: Seq<u8>, k: nat) -> Seq<u32>
    decreases k,
{
    if k == 0 {
        Seq::new(ECC_MAX_WORDS as nat, |i: int| 0u32)
    } else {
        word_step(tab, l, reg_words(tab, l, data, (k - 1) as nat), load_be(data, 4 * (k - 1)))
    }
}

/// The register after all whole words of `data` and then the first `k` of the
/// remaining bytes.
pub open spec fn reg_tail(tab: Seq<u32>, l: u32, data: Seq<u8>, k: nat) -> Seq<u32>
    decreases k,
{
    if k == 0 {
        reg_words(tab, l, data, data.len() / 4)
    } else {
        byte_step(
            tab,
            l,
            reg_tail(tab, l, data, (k - 1) as nat),
            data[4 * (data.len() / 4) + k - 1],
        )
    }
}

/// The register after all of `data`: its parity, highest bit first.
pub open spec fn ecc_register(tab: Seq<u32>, l: u32, data: Seq<u8>) -> Seq<u32> {
    reg_tail(tab, l, data, data.len() % 4)
}

/// The first `k` bytes of the register words `r`, big-endian.
pub open spec fn register_bytes(r: Seq<u32>, k: nat) -> Seq<u8> {
    Seq::new(k, |i: int| ((r[i / 4] >> ((24 - 8 * (i % 4)) as u32)) & 0xff) as u8)
}

impl EccState {
    /// Index of the register's last word that holds parity bits.
    pub open spec fn last_word(&self) -> u32 {
        (div_ceil(self.m * self.t, 32) - 1) as u32
    }

    /// Parity of `data` as the tables of this state compute it.
    pub open spec fn parity_of(&self, data: Seq<u8>) -> Seq<u32> {
        ecc_register(self.cyclic_tab@, self.last_word(), data)
    }

    /// The tables and parameters agree: only scratch buffers may differ.
    pub open spec fn same_tables(&self, other: &EccState) -> bool {
        &&& self.m == other.m
        &&& self.t == other.t
        &&& self.poly == other.poly
        &&& self.n == other.n
        &&& self.ecc_bytes == other.ecc_bytes
        &&& self.ecc_bits == other.ecc_bits
        &&& self.cyclic_tab@ == other.cyclic_tab@
        &&& self.exponents@ == other.exponents@
        &&& self.logarithms@ == other.logarithms@
        &&& self.elp_pre@ == other.elp_pre@
    }
}

/// Systematic encoding: the `ecc_bytes` parity bytes of `data`. The full
/// register is kept in `ecc_buf` for decoding.
pub fn bch_encode(st: &mut EccState, data: &[u8]) -> (ecc: Vec<u8>)
    requires
        old(st).wf(),
    ensures
        final(st).wf(),
        final(st).same_tables(old(st)),
        final(st).errloc@ == old(st).errloc@,
        final(st).syn@ == old(st).syn@,
        final(st).elp@ == old(st).elp@,
        final(st).ecc_buf@ == old(st).parity_of(data@),
        ecc@ == register_bytes(old(st).parity_of(data@), old(st).ecc_bytes as nat),
{
    let l: u32 = (st.m * st.t + 31) / 32 - 1;
    let s: u32 = l + 1;
    let ghost tab = st.cyclic_tab@;
    assert(tab.len() == 1024 * s);
    let mut r: Vec<u32> = vec![0; ECC_MAX_WORDS];
    assert(r@ =~= reg_words(tab, l, data@, 0));
    let len = data.len();
    let nw = len / 4;
    let mut k: usize = 0;
    while k < nw
        invariant
            st.wf(),
            tab == st.cyclic_tab@,
            l == st.last_word(),
            s == l + 1,
            l < ECC_MAX_WORDS,
            tab.len() == 1024 * s,
            len == data@.len(),
            nw == len / 4,
            k <= nw,
            r@ == reg_words(tab, l, data@, k as nat),
            r@.len() == ECC_MAX_WORDS,
        decreases nw - k,
    {
        assert(4 * k + 4 <= data@.len()) by (nonlinear_arith)
            requires
                k < nw,
                nw == len / 4,
                len == data@.len(),
        ;
        let off = 4 * k;
        let w0 = ((data[off] as u32) << 24) | ((data[off + 1] as u32) << 16) | ((data[off + 2] as u32)
            << 8) | (data[off + 3] as u32);
        let w = w0 ^ r[0];
        let ghost r0 = r@;
        assert(w & 0xff <= 255 && (w >> 8u32) & 0xff <= 255 && (w >> 16u32) & 0xff <= 255 && (w
            >> 24u32) & 0xff <= 255) by (bit_vector);
        assert(s * (w & 0xff) + s <= 256 * s && s * ((w >> 8u32) & 0xff) + s <= 256 * s && s * ((w
            >> 16u32) & 0xff) + s <= 256 * s && s * ((w >> 24u32) & 0xff) + s <= 256 * s)
            by (nonlinear_arith)
            requires
                w & 0xff <= 255,
                (w >> 8u32) & 0xff <= 255,
                (w >> 16u32) & 0xff <= 255,
                (w >> 24u32) & 0xff <= 255,
        ;
        let p0 = s * (w & 0xff);
        let p1 = 256 * s + s * ((w >> 8) & 0xff);
        let p2 = 512 * s + s * ((w >> 16) & 0xff);
        let p3 = 768 * s + s * ((w >> 24) & 0xff);
        let mut i: u32 = 0;
        while i < l
            invariant
                l < ECC_MAX_WORDS,
                s == l + 1,
                i <= l,
                tab == st.cyclic_tab@,
                tab.len() == 1024 * s,
                p0 == s * (w & 0xff),
                p1 == 256 * s + s * ((w >> 8u32) & 0xff),
                p2 == 512 * s + s * ((w >> 16u32) & 0xff),
                p3 == 768 * s + s * ((w >> 24u32) & 0xff),
                p0 + s <= 256 * s,
                p1 + s <= 512 * s,
                p2 + s <= 768 * s,
                p3 + s <= 1024 * s,
                r@.len() == ECC_MAX_WORDS,
                forall|j: int|
                    0 <= j < i ==> r@[j] == r0[j + 1] ^ tab[p0 + j] ^ tab[p1 + j] ^ tab[p2 + j]
                        ^ tab[p3 + j],
                forall|j: int| i <= j < ECC_MAX_WORDS ==> r@[j] == r0[j],
            decreases l - i,
        {
            let v = r[(i + 1) as usize] ^ st.cyclic_tab[(p0 + i) as usize] ^ st.cyclic_tab[(p1
                + i) as usize] ^ st.cyclic_tab[(p2 + i) as usize] ^ st.cyclic_tab[(p3
                + i) as usize];
            r.set(i as usize, v);
            i = i + 1;
        }
        let v = st.cyclic_tab[(p0 + l) as usize] ^ st.cyclic_tab[(p1 + l) as usize]
            ^ st.cyclic_tab[(p2 + l) as usize] ^ st.cyclic_tab[(p3 + l) as usize];
        r.set(l as usize, v);
        proof {
            assert(load_be(data@, 4 * k) == w0);
            assert(r@ =~= word_step(tab, l, r0, w0));
        }
        k = k + 1;
    }
    let start = 4 * nw;
    let left = data.len() - start;
    let mut k: usize = 0;
    while k < left
        invariant
            st.wf(),
            tab == st.cyclic_tab@,
            l == st.last_word(),
            s == l + 1,
            l < ECC_MAX_WORDS,
            tab.len() == 1024 * s,
            nw == data@.len() / 4,
            start == 4 * nw,
            left == data@.len() % 4,
            k <= left,
            r@ == reg_tail(tab, l, data@, k as nat),
            r@.len() == ECC_MAX_WORDS,
        decreases left - k,
    {
        let b = data[start + k];
        let ghost r0 = r@;
        let top = r[0] >> 24;
        let x = (top ^ (b as u32)) & 0xff;
        assert((top ^ (b as u32)) & 0xff <= 255) by (bit_vector);
        assert(s * x + s <= 256 * s) by (nonlinear_arith)
            requires
                x <= 255,
        ;
        let e = st.cyclic_tab[(s * x) as usize];
        let mut i: u32 = 0;
        while i < l
            invariant
                l < ECC_MAX_WORDS,
                i <= l,
                r@.len() == ECC_MAX_WORDS,
                forall|j: int| 0 <= j < i ==> r@[j] == ((r0[j] << 8u32) | (r0[j + 1] >> 24u32)) ^ e,
                forall|j: int| i <= j < ECC_MAX_WORDS ==> r@[j] == r0[j],
            decreases l - i,
        {
            let v = ((r[i as usize] << 8) | (r[(i + 1) as usize] >> 24)) ^ e;
            r.set(i as usize, v);
            i = i + 1;
        }
        let v = (r[l as usize] << 8) ^ e;
        r.set(l as usize, v);
        proof {
            assert(r@ =~= byte_step(tab, l, r0, b));
        }
        k = k + 1;
    }
    let mut ecc: Vec<u8> = Vec::new();
    let mut i: u32 = 0;
    let nb = st.ecc_bytes;
    assert(nb <= 4 * s);
    while i < nb
        invariant
            nb == st.ecc_bytes,
            nb <= 4 * s,
            s <= ECC_MAX_WORDS,
            i <= nb,
            r@.len() == ECC_MAX_WORDS,
            ecc@ == register_bytes(r@, i as nat),
        decreases nb - i,
    {
        let byte = ((r[(i / 4) as usize] >> (24 - 8 * (i % 4))) & 0xff) as u8;
        ecc.push(byte);
        assert(ecc@ =~= register_bytes(r@, (i + 1) as nat));
        i = i + 1;
    }
    st.ecc_buf = r;
    ecc
}


/// Outcome of decoding.
#[derive(Copy, Clone, Debug, PartialEq, Eq, Structural)]
pub enum Correction {
    /// The given number of bit flips was found and corrected.
    Corrected(u32),
    /// The error locator has degree above `t`, or fewer roots than its degree,
    /// or a root lies outside the message, or the corrected word fails the
    /// parity check: too many bit flips to correct.
    Uncorrectable,
}

/// Byte `x` of `v`, or 0 past its end.
pub open spec fn byte_or_zero(v: Seq<u8>, x: int) -> u8 {
    if x < v.len() {
        v[x]
    } else {
        0
    }
}

/// Word `i` of the received parity `recv`, big-endian, padded with zero bytes.
pub open spec fn recv_word(recv: Seq<u8>, i: int) -> u32 {
    ((byte_or_zero(recv, 4 * i) as u32) << 24u32) | ((byte_or_zero(recv, 4 * i + 1) as u32)
        << 16u32) | ((byte_or_zero(recv, 4 * i + 2) as u32) << 8u32) | (byte_or_zero(
        recv,
        4 * i + 3,
    ) as u32)
}

/// `d` with bit `pos` flipped, bits numbered from the low end of each byte,
/// bytes from the front; positions past the end are ignored.
pub open spec fn flip_bit(d: Seq<u8>, pos: u32) -> Seq<u8> {
    if pos / 8 < d.len() {
        d.update((pos / 8) as int, d[(pos / 8) as int] ^ ((1u32 << (pos & 7u32)) as u8))
    } else {
        d
    }
}

/// `d` with each of the bits at `locs` flipped in turn.
pub open spec fn apply_flips(d: Seq<u8>, locs: Seq<u32>) -> Seq<u8>
    decreases locs.len(),
{
    if locs.len() == 0 {
        d
    } else {
        flip_bit(apply_flips(d, locs.drop_last()), locs.last())
    }
}

/// `recv` with the bits of `locs` that lie in it flipped, positions counted
/// over `dlen` bytes of data followed by `recv`.
pub open spec fn apply_tail_flips(recv: Seq<u8>, locs: Seq<u32>, dlen: nat) -> Seq<u8>
    decreases locs.len(),
{
    if locs.len() == 0 {
        recv
    } else {
        let r = apply_tail_flips(recv, locs.drop_last(), dlen);
        let p = locs.last();
        let b = (p / 8) as int - dlen;
        if 0 <= b < r.len() {
            r.update(b, r[b] ^ ((1u32 << (p & 7u32)) as u8))
        } else {
            r
        }
    }
}

impl EccState {
    /// The received parity equals the parity of `data` in every word that holds
    /// parity bits.
    pub open spec fn clean(&self, data: Seq<u8>, recv: Seq<u8>) -> bool {
        forall|i: int| 0 <= i <= self.last_word() ==> self.parity_of(data)[i] == recv_word(recv, i)
    }

    /// Word `i` of the difference between the parity of `data` and the received
    /// parity as the syndromes read it: the bits of the last parity word past
    /// `ecc_bits` are left out.
    pub open spec fn syndrome_word(&self, data: Seq<u8>, recv: Seq<u8>, i: int) -> u32 {
        let x = self.parity_of(data)[i] ^ recv_word(recv, i);
        if self.ecc_bits % 32 != 0 && i == self.ecc_bits / 32 {
            x & !low_mask((32 - self.ecc_bits % 32) as u32)
        } else {
            x
        }
    }

    /// The received parity agrees with the parity of `data` in every bit that
    /// the syndromes read.
    pub open spec fn passes_check(&self, data: Seq<u8>, recv: Seq<u8>) -> bool {
        forall|i: int|
            0 <= i < div_ceil(self.ecc_bits as int, 32) ==> #[trigger] self.syndrome_word(
                data,
                recv,
                i,
            ) == 0
    }

    /// Roots of the error locator `poly` of degree `deg`, as positions counted
    /// from the end of a message of `k` bytes followed by its parity; `None` when
    /// it has fewer roots than its degree.
    fn getroots(&self, k: u32, poly: &Vec<u32>, deg: u32) -> (roots: Option<Vec<u32>>)
        requires
            self.wf(),
            poly@.len() == 2 * self.t,
            forall|i: int| 0 <= i < 2 * self.t ==> #[trigger] poly@[i] <= self.n,
            deg < 2 * self.t,
            k * 8 + self.ecc_bits <= self.n,
        ensures
            roots matches Some(r) ==> r@.len() <= deg,
            deg == 0 ==> (roots matches Some(r) && r@.len() == 0),
            roots matches Some(r) ==> r@.len() == deg,
            match roots {
                Some(r) => self.roots_of(k, poly@, deg as nat) == Some(r@),
                None => self.roots_of(k, poly@, deg as nat) is None,
            },
    {
        let n = self.n;
        let t = self.t;
        let m = self.m;
        let mut roots: Vec<u32> = Vec::new();
        if deg > 2 {
            let k = k * 8 + self.ecc_bits;
            let mut rep: Vec<i32> = vec![0; (2 * t) as usize];
            let l = n - self.g_log(poly[deg as usize]);
            let mut i: u32 = 0;
            while i < deg
                invariant
                    self.wf(),
                    n == self.n,
                    t == self.t,
                    i <= deg,
                    deg < 2 * t,
                    1 <= l <= n,
                    poly@.len() == 2 * t,
                    forall|j: int| 0 <= j < 2 * t ==> #[trigger] poly@[j] <= n,
                    rep@.len() == 2 * t,
                    forall|j: int| 0 <= j < 2 * t ==> -1 <= #[trigger] rep@[j] < n,
                    l == n - self.logarithms@[poly@[deg as int] as int],
                    forall|j: int|
                        0 <= j < 2 * t ==> #[trigger] rep@[j] == (if j < i {
                            self.rep_of(poly@, deg as int)[j]
                        } else {
                            0i32
                        }),
                decreases deg - i,
            {
                if poly[i as usize] != 0 {
                    let v = self.reduce(self.g_log(poly[i as usize]) + l);
                    rep.set(i as usize, v as i32);
                } else {
                    rep.set(i as usize, -1);
                }
                i = i + 1;
            }
            rep.set(deg as usize, 0);
            assert(rep@ =~= self.rep_of(poly@, deg as int));
            let syn0 = self.g_div(poly[0], poly[deg as usize]);
            assert(syn0 == self.syn0_of(poly@, deg as int));
            let ghost lo = n - k + 1;
            let mut i: u32 = n - k + 1;
            while i < n + 1
                invariant_except_break
                    roots@.len() < deg,
                    roots@ == self.root_scan(poly@, deg as nat, lo, (i - lo) as nat),
                invariant
                    lo == n - k + 1,
                    1 <= lo,
                    k <= n,
                    i >= lo,
                    rep@ == self.rep_of(poly@, deg as int),
                    syn0 == self.syn0_of(poly@, deg as int),
                    self.wf(),
                    n == self.n,
                    t == self.t,
                    deg < 2 * t,
                    2 * t < n,
                    n <= 0x7fff,
                    1 <= i <= n + 1,
                    rep@.len() == 2 * t,
                    forall|j: int| 0 <= j < 2 * t ==> -1 <= #[trigger] rep@[j] < n,
                ensures
                    roots@.len() <= deg,
                    roots@ == self.root_scan(poly@, deg as nat, lo, k as nat),
                decreases n + 1 - i,
            {
                let mut syn = syn0;
                let mut j: u32 = 1;
                while j < deg + 1
                    invariant
                        self.wf(),
                        n == self.n,
                        t == self.t,
                        deg < 2 * t,
                        2 * t < n,
                        n <= 0x7fff,
                        1 <= i <= n,
                        1 <= j <= deg + 1,
                        rep@.len() == 2 * t,
                        forall|jj: int| 0 <= jj < 2 * t ==> -1 <= #[trigger] rep@[jj] < n,
                        syn == self.locator_at(rep@, syn0, i as int, (j - 1) as nat),
                    decreases deg + 1 - j,
                {
                    let mm = rep[j as usize];
                    if mm >= 0 {
                        assert(j * i <= 0x7fff * 0x7fff) by (nonlinear_arith)
                            requires
                                j <= 0x7fff,
                                i <= 0x7fff,
                        ;
                        syn = syn ^ self.g_pow(mm as u32 + j * i);
                    }
                    j = j + 1;
                }
                let ghost before = roots@;
                assert(syn == self.locator_at(rep@, syn0, i as int, deg as nat));
                if syn == 0 {
                    roots.push(n - i);
                    if roots.len() == deg as usize {
                        proof {
                            assert(roots@ == self.root_scan(poly@, deg as nat, lo, (i + 1 - lo) as nat));
                            lemma_scan_stays(*self, poly@, deg as nat, lo, (i + 1 - lo) as nat, k as nat);
                        }
                        break;
                    }
                }
                i = i + 1;
            }
            if roots.len() < deg as usize {
                return None;
            }
        }
        if deg == 1 && poly[0] != 0 {
            let v = self.reduce(n - self.logarithms[poly[0] as usize] + self.logarithms[poly[1] as usize]);
            roots.push(v);
        }
        if deg == 2 && poly[0] != 0 && poly[1] != 0 {
            let l0 = self.g_log(poly[0]);
            let l1 = self.g_log(poly[1]);
            let l2 = self.g_log(poly[2]);
            let u = self.g_pow(l0 + l2 + 2 * (n - l1));
            let mut r: u32 = 0;
            let mut v = u;
            let ghost mut fuel: nat = 32;
            while v != 0
                invariant
                    fuel <= 32,
                    fuel == 32 || v >> (fuel as u32) == 0,
                    pre_fold(self.elp_pre@, v, r, fuel) == pre_fold(self.elp_pre@, u, 0, 32),
                    self.wf(),
                    n == self.n,
                    m == self.m,
                    r <= n,
                    v <= n,
                decreases v,
            {
                let i = top_bit(v);
                assert(2 <= m <= 15 && v <= low_mask(m) && v >> i == 1u32 && i < 32 ==> i < m && (v
                    ^ (1u32 << i)) < v && (v ^ (1u32 << i)) <= low_mask(m)) by (bit_vector);
                proof {
                    lemma_xor_bound(r, self.elp_pre@[i as int], m);
                }
                proof {
                    lemma_clear_top(v, i, fuel as u32);
                    fuel = (fuel - 1) as nat;
                }
                r = r ^ self.elp_pre[i as usize];
                v = v ^ (1u32 << i);
            }
            let sq = self.g_sqrt(r);
            if sq ^ r == u {
                proof {
                    lemma_xor_bound(r, 1, m);
                }
                let a = self.modn(2 * n - l1 - self.g_log(r) + l2);
                let b = self.modn(2 * n - l1 - self.g_log(r ^ 1) + l2);
                proof {
                    vstd::arithmetic::div_mod::lemma_small_mod(a as nat, n as nat);
                    vstd::arithmetic::div_mod::lemma_small_mod(b as nat, n as nat);
                }
                roots.push(a);
                roots.push(b);
            }
        }
        if roots.len() < deg as usize {
            return None;
        }
        Some(roots)
    }
}

impl EccState {
    /// The locator's coefficients below `deg` as logarithms, scaled so that the
    /// leading coefficient is 1 (-1 for a zero coefficient); 0 from `deg` on.
    pub open spec fn rep_of(&self, poly: Seq<u32>, deg: int) -> Seq<i32> {
        let l = self.n - self.logarithms@[poly[deg] as int];
        Seq::new(
            (2 * self.t) as nat,
            |x: int|
                if x < deg {
                    if poly[x] != 0 {
                        ((self.logarithms@[poly[x] as int] + l) % (self.n as int)) as i32
                    } else {
                        -1i32
                    }
                } else {
                    0i32
                },
        )
    }

    /// The constant term of the monic locator.
    pub open spec fn syn0_of(&self, poly: Seq<u32>, deg: int) -> u32 {
        if poly[0] != 0 {
            self.exponents@[(self.logarithms@[poly[0] as int] + self.n - self.logarithms@[poly[deg] as int])
                % (self.n as int)]
        } else {
            0
        }
    }

    /// The monic locator at `alpha^i`, its first `j` terms added to `syn0`.
    pub open spec fn locator_at(&self, rep: Seq<i32>, syn0: u32, i: int, j: nat) -> u32
        decreases j,
    {
        if j == 0 {
            syn0
        } else {
            let a = self.locator_at(rep, syn0, i, (j - 1) as nat);
            if rep[j as int] >= 0 {
                a ^ self.exponents@[(rep[j as int] + j * i) % (self.n as int)]
            } else {
                a
            }
        }
    }

    /// The roots found among the positions `lo .. lo + count`, in order,
    /// stopping at `deg` of them: `n - i` for each `i` where the locator is 0.
    pub open spec fn root_scan(&self, poly: Seq<u32>, deg: nat, lo: int, count: nat) -> Seq<u32>
        decreases count,
    {
        if count == 0 {
            Seq::empty()
        } else {
            let r = self.root_scan(poly, deg, lo, (count - 1) as nat);
            let i = lo + count - 1;
            if r.len() == deg {
                r
            } else if self.locator_at(
                self.rep_of(poly, deg as int),
                self.syn0_of(poly, deg as int),
                i,
                deg,
            ) == 0 {
                r.push((self.n - i) as u32)
            } else {
                r
            }
        }
    }

    /// The roots of the locator `poly` of degree `deg` for a message of `k`
    /// bytes: by search above degree 2, in closed form at degrees 1 and 2;
    /// `None` whenever fewer than `deg` are found.
    pub open spec fn roots_of(&self, k: u32, poly: Seq<u32>, deg: nat) -> Option<Seq<u32>> {
        let n = self.n as int;
        let logs = self.logarithms@;
        if deg > 2 {
            let kk = k * 8 + self.ecc_bits;
            let r = self.root_scan(poly, deg, n - kk + 1, kk as nat);
            if r.len() < deg {
                None
            } else {
                Some(r)
            }
        } else {
            let r = self.small_roots(poly, deg);
            if r.len() < deg {
                None
            } else {
                Some(r)
            }
        }
    }

    /// The roots of a locator of degree 1 or 2 in closed form; none at degree
    /// 0, and fewer than the degree when the closed form does not apply.
    pub open spec fn small_roots(&self, poly: Seq<u32>, deg: nat) -> Seq<u32> {
        let n = self.n as int;
        let logs = self.logarithms@;
        if deg == 1 && poly[0] != 0 {
            seq![((n - logs[poly[0] as int] + logs[poly[1] as int]) % n) as u32]
        } else if deg == 2 && poly[0] != 0 && poly[1] != 0 {
            let l0 = logs[poly[0] as int];
            let l1 = logs[poly[1] as int];
            let l2 = logs[poly[2] as int];
            let u = self.exponents@[(l0 + l2 + 2 * (n - l1)) % n];
            let r = pre_fold(self.elp_pre@, u, 0, 32);
            if gf_sqrt(self.exponents@, logs, self.n, r) ^ r == u {
                seq![
                    ((2 * n - l1 - logs[r as int] + l2) % n) as u32,
                    ((2 * n - l1 - logs[(r ^ 1) as int] + l2) % n) as u32,
                ]
            } else {
                Seq::empty()
            }
        } else {
            Seq::empty()
        }
    }
}

/// `acc` plus `pre[i]` for each set bit `i` of `v` (at most `fuel`).
pub open spec fn pre_fold(pre: Seq<u32>, v: u32, acc: u32, fuel: nat) -> u32
    decreases fuel,
{
    if fuel == 0 || v == 0 {
        acc
    } else {
        let i = degree(v);
        pre_fold(pre, v ^ (1u32 << i), acc ^ pre[i as int], (fuel - 1) as nat)
    }
}

proof fn lemma_scan_stays(st: EccState, poly: Seq<u32>, deg: nat, lo: int, c: nat, c2: nat)
    requires
        c <= c2,
        st.root_scan(poly, deg, lo, c).len() == deg,
    ensures
        st.root_scan(poly, deg, lo, c2) == st.root_scan(poly, deg, lo, c),
    decreases c2,
{
    if c2 > c {
        lemma_scan_stays(st, poly, deg, lo, c, (c2 - 1) as nat);
    }
}

/// Copy of a byte slice.
fn copy_bytes(v: &[u8]) -> (r: Vec<u8>)
    ensures
        r@ == v@,
{
    let mut r: Vec<u8> = Vec::new();
    let mut i: usize = 0;
    while i < v.len()
        invariant
            i <= v@.len(),
            r@ == v@.take(i as int),
        decreases v.len() - i,
    {
        r.push(v[i]);
        i = i + 1;
        assert(r@ =~= v@.take(i as int));
    }
    assert(v@.take(v@.len() as int) =~= v@);
    r
}

/// Whether the received parity `recv` passes the check against `data`: the
/// syndromes of the pair would all be zero.
fn check_parity(st: &mut EccState, data: &[u8], recv: &[u8]) -> (r: bool)
    requires
        old(st).wf(),
    ensures
        final(st).wf(),
        final(st).same_tables(old(st)),
        final(st).errloc@ == old(st).errloc@,
        r == old(st).passes_check(data@, recv@),
{
    let _p = bch_encode(st, data);
    let ecc_bits = st.ecc_bits;
    let nsw: u32 = (ecc_bits + 31) / 32;
    assert(ecc_bits & 31 == ecc_bits % 32) by (bit_vector);
    let mm: u32 = ecc_bits & 31;
    assert(nsw <= ECC_MAX_WORDS);
    let mut k: u32 = 0;
    while k < nsw
        invariant
            st.wf(),
            st.same_tables(old(st)),
            st.ecc_buf@ == old(st).parity_of(data@),
            st.errloc@ == old(st).errloc@,
            ecc_bits == st.ecc_bits,
            mm == ecc_bits % 32,
            nsw == div_ceil(ecc_bits as int, 32),
            nsw <= ECC_MAX_WORDS,
            k <= nsw,
            forall|j: int| 0 <= j < k ==> #[trigger] old(st).syndrome_word(data@, recv@, j) == 0,
        decreases nsw - k,
    {
        let b0 = if 4 * (k as usize) < recv.len() { recv[4 * k as usize] } else { 0 };
        let b1 = if 4 * (k as usize) + 1 < recv.len() { recv[4 * k as usize + 1] } else { 0 };
        let b2 = if 4 * (k as usize) + 2 < recv.len() { recv[4 * k as usize + 2] } else { 0 };
        let b3 = if 4 * (k as usize) + 3 < recv.len() { recv[4 * k as usize + 3] } else { 0 };
        let w = ((b0 as u32) << 24) | ((b1 as u32) << 16) | ((b2 as u32) << 8) | (b3 as u32);
        assert(b0 == byte_or_zero(recv@, 4 * k) && b1 == byte_or_zero(recv@, 4 * k + 1) && b2
            == byte_or_zero(recv@, 4 * k + 2) && b3 == byte_or_zero(recv@, 4 * k + 3));
        assert(w == recv_word(recv@, k as int));
        let mut x = st.ecc_buf[k as usize] ^ w;
        if mm != 0 && k == ecc_bits / 32 {
            assert(1 <= mm <= 31 ==> (1u32 << ((32 - mm) as u32)) >= 1) by (bit_vector);
            x = x & !((1u32 << (32 - mm)) - 1);
        }
        assert(x == old(st).syndrome_word(data@, recv@, k as int));
        if x != 0 {
            return false;
        }
        k = k + 1;
    }
    true
}

/// Copy of a vector of words.
fn copy_words(v: &Vec<u32>) -> (r: Vec<u32>)
    ensures
        r@ == v@,
{
    let mut r: Vec<u32> = Vec::new();
    let mut i: usize = 0;
    while i < v.len()
        invariant
            i <= v@.len(),
            r@ == v@.take(i as int),
        decreases v.len() - i,
    {
        r.push(v[i]);
        i = i + 1;
        assert(r@ =~= v@.take(i as int));
    }
    assert(v@.take(v@.len() as int) =~= v@);
    r
}

proof fn lemma_or_zero(a: u32, b: u32)
    ensures
        (a | b) == 0 <==> (a == 0 && b == 0),
        (a ^ b) == 0 <==> a == b,
{
    assert((a | b) == 0 <==> (a == 0 && b == 0)) by (bit_vector);
    assert((a ^ b) == 0 <==> a == b) by (bit_vector);
}


/// The syndromes `syn` after the bit at exponent `e` of the received
/// difference is added: `alpha^((j + 1) e)` to each even entry `j`.
pub open spec fn syn_bit(exps: Seq<u32>, n: u32, syn: Seq<u32>, e: u32) -> Seq<u32> {
    Seq::new(
        syn.len(),
        |j: int|
            if j % 2 == 0 {
                syn[j] ^ exps[((j + 1) * e) % (n as int)]
            } else {
                syn[j]
            },
    )
}

/// The syndromes after the set bits of the difference word `poly` (at most
/// `fuel` of them, highest first) are added; `s` places the word in the stream.
pub open spec fn syn_word(exps: Seq<u32>, n: u32, syn: Seq<u32>, poly: u32, s: int, fuel: nat) -> Seq<
    u32,
>
    decreases fuel,
{
    if fuel == 0 || poly == 0 {
        syn
    } else {
        let i = degree(poly);
        syn_word(
            exps,
            n,
            syn_bit(exps, n, syn, (i + s) as u32),
            poly ^ (1u32 << i),
            s,
            (fuel - 1) as nat,
        )
    }
}

/// Square roots filled in: `syn[2i + 1] = sqrt(syn[i])` for the first `i`
/// entries, in order.
pub open spec fn sqrt_fill(exps: Seq<u32>, logs: Seq<u32>, n: u32, syn: Seq<u32>, i: nat) -> Seq<u32>
    decreases i,
{
    if i == 0 {
        syn
    } else {
        let p = sqrt_fill(exps, logs, n, syn, (i - 1) as nat);
        p.update(2 * (i - 1) + 1, gf_sqrt(exps, logs, n, p[i - 1]))
    }
}

impl EccState {
    /// The even syndromes after the first `w` words of the received difference.
    pub open spec fn syn_words(&self, data: Seq<u8>, recv: Seq<u8>, w: nat) -> Seq<u32>
        decreases w,
    {
        if w == 0 {
            Seq::new((2 * self.t) as nat, |j: int| 0u32)
        } else {
            syn_word(
                self.exponents@,
                self.n,
                self.syn_words(data, recv, (w - 1) as nat),
                self.syndrome_word(data, recv, w - 1),
                self.ecc_bits - 32 * w,
                32,
            )
        }
    }

    /// The `2t` syndromes of the received `data` and parity `recv`.
    pub open spec fn syndromes(&self, data: Seq<u8>, recv: Seq<u8>) -> Seq<u32> {
        sqrt_fill(
            self.exponents@,
            self.logarithms@,
            self.n,
            self.syn_words(data, recv, div_ceil(self.ecc_bits as int, 32) as nat),
            self.t as nat,
        )
    }
}

proof fn lemma_clear_top(poly: u32, i: u32, f: u32)
    requires
        i < 32,
        poly >> i == 1u32,
        f <= 32,
        f == 32 || poly >> f == 0,
    ensures
        f >= 1,
        i < f,
        f - 1 == 32 || (poly ^ (1u32 << i)) >> ((f - 1) as u32) == 0,
{
    assert(i < 32 && poly >> i == 1u32 && f <= 32 && (f == 32 || poly >> f == 0) ==> f >= 1 && i
        < f && (f - 1 == 32 || (poly ^ (1u32 << i)) >> ((f - 1) as u32) == 0)) by (bit_vector);
}

/// The error locator `elp` after a discrepancy step: the previous locator
/// `pelp` (of degree `pelp_deg`), shifted by `k` and scaled by `alpha^tmp`, is
/// added.
pub open spec fn bm_update(
    exps: Seq<u32>,
    logs: Seq<u32>,
    n: u32,
    elp: Seq<u32>,
    pelp: Seq<u32>,
    pelp_deg: int,
    k: int,
    tmp: int,
) -> Seq<u32> {
    Seq::new(
        elp.len(),
        |x: int|
            if k <= x <= pelp_deg + k && pelp[x - k] != 0 {
                elp[x] ^ exps[(tmp + logs[pelp[x - k] as int]) % (n as int)]
            } else {
                elp[x]
            },
    )
}

/// The discrepancy of step `i + 1`: `syn[2i + 2]` plus the first `j` products
/// `elp[j'] * syn[2i + 2 - j']`.
pub open spec fn d_fold(
    exps: Seq<u32>,
    logs: Seq<u32>,
    n: u32,
    elp: Seq<u32>,
    syn: Seq<u32>,
    i: int,
    j: nat,
) -> u32
    decreases j,
{
    if j == 0 {
        syn[2 * i + 2]
    } else {
        d_fold(exps, logs, n, elp, syn, i, (j - 1) as nat) ^ gf_mul(
            exps,
            logs,
            n,
            elp[j as int],
            syn[2 * i + 2 - j],
        )
    }
}

/// State of Berlekamp-Massey: locator, its degree, previous locator, its
/// degree, step of the previous update, its discrepancy, current discrepancy.
pub type BmState = (Seq<u32>, nat, Seq<u32>, nat, int, u32, u32);

impl EccState {
    /// One step `i` of Berlekamp-Massey over the syndromes `syn`.
    pub open spec fn bm_step(&self, syn: Seq<u32>, b: BmState, i: int) -> BmState {
        let (elp, ed, pelp, pdeg, pp, pd, d) = b;
        let u: (Seq<u32>, nat, Seq<u32>, nat, int, u32) = if d != 0 {
            let k = 2 * i - pp;
            let tmp = self.logarithms@[d as int] + self.n - self.logarithms@[pd as int];
            let e1 = bm_update(
                self.exponents@,
                self.logarithms@,
                self.n,
                elp,
                pelp,
                pdeg as int,
                k,
                tmp,
            );
            if pdeg + k > ed {
                (e1, (pdeg + k) as nat, elp, ed, 2 * i, d)
            } else {
                (e1, ed, pelp, pdeg, pp, pd)
            }
        } else {
            (elp, ed, pelp, pdeg, pp, pd)
        };
        let d2 = if i < self.t - 1 {
            d_fold(self.exponents@, self.logarithms@, self.n, u.0, syn, i, u.1)
        } else {
            d
        };
        (u.0, u.1, u.2, u.3, u.4, u.5, d2)
    }

    /// Berlekamp-Massey after `i` steps; it stops once the degree exceeds `t`.
    pub open spec fn bm(&self, syn: Seq<u32>, i: nat) -> BmState
        decreases i,
    {
        if i == 0 {
            let e0 = Seq::new((2 * self.t) as nat, |j: int| if j == 0 { 1u32 } else { 0u32 });
            (e0, 0, e0, 0, -1, 1, syn[0])
        } else {
            let p = self.bm(syn, (i - 1) as nat);
            if p.1 > self.t {
                p
            } else {
                self.bm_step(syn, p, i - 1)
            }
        }
    }
}

proof fn lemma_bm_stays(st: EccState, syn: Seq<u32>, i: nat, j: nat)
    requires
        i <= j,
        st.bm(syn, i).1 > st.t,
    ensures
        st.bm(syn, j) == st.bm(syn, i),
    decreases j,
{
    if j > i {
        lemma_bm_stays(st, syn, i, (j - 1) as nat);
    }
}

/// Bit position `e` of the error locator turned into a position in the message:
/// counted from the front, with bits numbered from the low end of each byte.
pub open spec fn locator_position(nbits: u32, e: u32) -> u32 {
    let p = (nbits - 1 - e) as u32;
    (p & !7u32) | ((7 - (p & 7u32)) as u32)
}

impl EccState {
    /// What decoding `data` against the received parity `recv` does: the bit
    /// positions that it flips, or `None` when it reports the data
    /// uncorrectable.
    pub open spec fn decode_outcome(&self, data: Seq<u8>, recv: Seq<u8>) -> Option<Seq<u32>> {
        if self.clean(data, recv) {
            Some(Seq::empty())
        } else {
            let b = self.bm(self.syndromes(data, recv), self.t as nat);
            if b.1 > self.t {
                None
            } else {
                match self.roots_of(data.len() as u32, b.0, b.1) {
                    None => None,
                    Some(r) => {
                        let nbits = (data.len() * 8 + self.ecc_bits) as u32;
                        if exists|q: int| 0 <= q < r.len() && r[q] >= nbits {
                            None
                        } else {
                            let locs = Seq::new(r.len(), |q: int| locator_position(nbits, r[q]));
                            if self.passes_check(
                                apply_flips(data, locs),
                                apply_tail_flips(recv, locs, data.len()),
                            ) {
                                Some(locs)
                            } else {
                                None
                            }
                        }
                    },
                }
            }
        }
    }
}

proof fn lemma_syn_words_same(a: EccState, b: EccState, data: Seq<u8>, recv: Seq<u8>, w: nat)
    requires
        a.same_tables(&b),
    ensures
        a.syn_words(data, recv, w) == b.syn_words(data, recv, w),
    decreases w,
{
    if w > 0 {
        lemma_syn_words_same(a, b, data, recv, (w - 1) as nat);
    }
}

/// Two states with the same tables check parity alike.
proof fn lemma_passes_same(a: EccState, b: EccState)
    requires
        a.same_tables(&b),
    ensures
        forall|d: Seq<u8>, r: Seq<u8>| #[trigger] a.passes_check(d, r) == b.passes_check(d, r),
{
    assert forall|d: Seq<u8>, r: Seq<u8>| #[trigger] a.passes_check(d, r) == b.passes_check(d, r) by {
        assert(a.parity_of(d) == b.parity_of(d));
        let nw = div_ceil(a.ecc_bits as int, 32);
        if a.passes_check(d, r) {
            assert forall|i: int| 0 <= i < nw implies #[trigger] b.syndrome_word(d, r, i) == 0 by {
                assert(a.syndrome_word(d, r, i) == 0);
            }
        }
        if b.passes_check(d, r) {
            assert forall|i: int| 0 <= i < nw implies #[trigger] a.syndrome_word(d, r, i) == 0 by {
                assert(b.syndrome_word(d, r, i) == 0);
            }
        }
    }
}

/// The pair passes the check when the received parity equals the parity.
proof fn lemma_clean_passes(st: EccState, d: Seq<u8>, r: Seq<u8>)
    requires
        st.wf(),
        st.clean(d, r),
    ensures
        st.passes_check(d, r),
{
    assert forall|i: int| 0 <= i < div_ceil(st.ecc_bits as int, 32) implies #[trigger] st.syndrome_word(
        d,
        r,
        i,
    ) == 0 by {
        let w = st.parity_of(d)[i];
        assert(i <= st.last_word());
        lemma_xor_self(w);
        let z = (32 - st.ecc_bits % 32) as u32;
        assert(0u32 & !low_mask(z) == 0) by (bit_vector);
    }
}

/// Two states with the same tables decode alike.
pub proof fn lemma_outcome_same(a: EccState, b: EccState, data: Seq<u8>, recv: Seq<u8>)
    requires
        a.same_tables(&b),
    ensures
        a.decode_outcome(data, recv) == b.decode_outcome(data, recv),
{
    lemma_passes_same(a, b);
    lemma_syn_words_same(a, b, data, recv, div_ceil(a.ecc_bits as int, 32) as nat);
    assert(a.syndromes(data, recv) == b.syndromes(data, recv));
    let syn = a.syndromes(data, recv);
    lemma_bm_same(a, b, syn, a.t as nat);
    let bb = a.bm(syn, a.t as nat);
    lemma_roots_same(a, b, data.len() as u32, bb.0, bb.1);
    assert(a.clean(data, recv) == b.clean(data, recv));
}

proof fn lemma_bm_same(a: EccState, b: EccState, syn: Seq<u32>, i: nat)
    requires
        a.same_tables(&b),
    ensures
        a.bm(syn, i) == b.bm(syn, i),
    decreases i,
{
    if i > 0 {
        lemma_bm_same(a, b, syn, (i - 1) as nat);
    }
}

proof fn lemma_locator_same(a: EccState, b: EccState, rep: Seq<i32>, syn0: u32, i: int, j: nat)
    requires
        a.same_tables(&b),
    ensures
        a.locator_at(rep, syn0, i, j) == b.locator_at(rep, syn0, i, j),
    decreases j,
{
    if j > 0 {
        lemma_locator_same(a, b, rep, syn0, i, (j - 1) as nat);
    }
}

proof fn lemma_scan_same(a: EccState, b: EccState, poly: Seq<u32>, deg: nat, lo: int, c: nat)
    requires
        a.same_tables(&b),
    ensures
        a.root_scan(poly, deg, lo, c) == b.root_scan(poly, deg, lo, c),
    decreases c,
{
    if c > 0 {
        lemma_scan_same(a, b, poly, deg, lo, (c - 1) as nat);
        lemma_locator_same(
            a,
            b,
            a.rep_of(poly, deg as int),
            a.syn0_of(poly, deg as int),
            lo + c - 1,
            deg,
        );
    }
}

proof fn lemma_roots_same(a: EccState, b: EccState, k: u32, poly: Seq<u32>, deg: nat)
    requires
        a.same_tables(&b),
    ensures
        a.roots_of(k, poly, deg) == b.roots_of(k, poly, deg),
{
    let kk = k * 8 + a.ecc_bits;
    lemma_scan_same(a, b, poly, deg, a.n - kk + 1, kk as nat);
}

/// Checks `data` against the received parity `recvecc` and corrects bit flips
/// in `data` in place.
///
/// When the received parity is the parity of `data` nothing is changed and no
/// correction is reported. Otherwise the error locator is found from the
/// syndromes (Berlekamp-Massey) and the bits at its roots are flipped. The
/// data is reported uncorrectable when the locator's degree exceeds `t`, when
/// it has fewer roots than its degree, when a root lies outside the message,
/// or when the corrected data and parity do not pass the check.
#[verifier::rlimit(100)]
pub fn bch_decode(st: &mut EccState, data: &mut Vec<u8>, recvecc: &[u8]) -> (r: Correction)
    requires
        old(st).wf(),
        old(data)@.len() * 8 + old(st).ecc_bits <= old(st).n,
    ensures
        final(st).wf(),
        final(st).same_tables(old(st)),
        final(data)@.len() == old(data)@.len(),
        old(st).clean(old(data)@, recvecc@) ==> r == Correction::Corrected(0) && final(data)@
            == old(data)@,
        old(st).passes_check(old(data)@, recvecc@) ==> r == Correction::Corrected(0)
            && final(data)@ == old(data)@,
        r == Correction::Uncorrectable ==> final(data)@ == old(data)@,
        r matches Correction::Corrected(k) ==> {
            &&& k == final(st).errloc@.len()
            &&& k <= old(st).t
            &&& final(data)@ == apply_flips(old(data)@, final(st).errloc@)
            &&& old(st).passes_check(
                final(data)@,
                apply_tail_flips(recvecc@, final(st).errloc@, old(data)@.len()),
            )
        },
        match r {
            Correction::Uncorrectable => old(st).decode_outcome(old(data)@, recvecc@) is None,
            Correction::Corrected(k) => old(st).decode_outcome(old(data)@, recvecc@) == Some(
                final(st).errloc@,
            ),
        },
{
    let ghost data0 = data@;
    let _calc = bch_encode(st, data.as_slice());
    let ghost parity = st.ecc_buf@;
    let n = st.n;
    let t = st.t;
    let m = st.m;
    let eccwords: u32 = (m * t + 31) / 32;
    let mut synbuf = copy_words(&st.ecc_buf);
    let mut sum: u32 = 0;
    let mut i: u32 = 0;
    while i < eccwords
        invariant
            st.wf(),
            eccwords == st.last_word() + 1,
            eccwords <= ECC_MAX_WORDS,
            i <= eccwords,
            synbuf@.len() == ECC_MAX_WORDS,
            parity.len() == ECC_MAX_WORDS,
            forall|j: int| i <= j < ECC_MAX_WORDS ==> synbuf@[j] == parity[j],
            forall|j: int| 0 <= j < i ==> synbuf@[j] == parity[j] ^ recv_word(recvecc@, j),
            sum == 0 <==> forall|j: int| 0 <= j < i ==> parity[j] == recv_word(recvecc@, j),
        decreases eccwords - i,
    {
        let b0 = if 4 * (i as usize) < recvecc.len() { recvecc[4 * i as usize] } else { 0 };
        let b1 = if 4 * (i as usize) + 1 < recvecc.len() { recvecc[4 * i as usize + 1] } else { 0 };
        let b2 = if 4 * (i as usize) + 2 < recvecc.len() { recvecc[4 * i as usize + 2] } else { 0 };
        let b3 = if 4 * (i as usize) + 3 < recvecc.len() { recvecc[4 * i as usize + 3] } else { 0 };
        let w = ((b0 as u32) << 24) | ((b1 as u32) << 16) | ((b2 as u32) << 8) | (b3 as u32);
        assert(b0 == byte_or_zero(recvecc@, 4 * i) && b1 == byte_or_zero(recvecc@, 4 * i + 1) && b2
            == byte_or_zero(recvecc@, 4 * i + 2) && b3 == byte_or_zero(recvecc@, 4 * i + 3));
        assert(w == recv_word(recvecc@, i as int));
        let x = synbuf[i as usize] ^ w;
        let ghost sum0 = sum;
        let ghost i0 = i as int;
        assert(synbuf@[i0] == parity[i0]);
        proof {
            lemma_or_zero(sum, x);
            lemma_or_zero(synbuf@[i as int], w);
        }
        synbuf.set(i as usize, x);
        sum = sum | x;
        i = i + 1;
        assert((sum == 0) == (forall|j: int| 0 <= j < i ==> parity[j] == recv_word(recvecc@, j))) by {
            assert((sum == 0) == (sum0 == 0 && parity[i0] == recv_word(recvecc@, i0)));
            if sum == 0 {
                assert forall|j: int| 0 <= j < i implies parity[j] == recv_word(recvecc@, j) by {
                    if j < i0 {
                    }
                }
            } else if forall|j: int| 0 <= j < i ==> parity[j] == recv_word(recvecc@, j) {
                assert(parity[i0] == recv_word(recvecc@, i0));
                assert(forall|j: int| 0 <= j < i0 ==> parity[j] == recv_word(recvecc@, j));
            }
        }
    }
    if sum == 0 {
        st.errloc = Vec::new();
        proof {
            lemma_clean_passes(*old(st), data0, recvecc@);
            assert(apply_tail_flips(recvecc@, st.errloc@, data0.len()) == recvecc@);
        }
        return Correction::Corrected(0);
    }
    assert(!old(st).clean(data0, recvecc@));
    let ghost pc = old(st).passes_check(data0, recvecc@);
    let ghost nsw = div_ceil(st.ecc_bits as int, 32);

    // syndromes
    let ecc_bits = st.ecc_bits;
    let mut syn: Vec<u32> = vec![0; (2 * t) as usize];
    assert(syn@ =~= old(st).syn_words(data0, recvecc@, 0));
    assert(ecc_bits & 31 == ecc_bits % 32) by (bit_vector);
    let mm: u32 = ecc_bits & 31;
    assert(nsw <= eccwords);
    if mm != 0 {
        let idx = (ecc_bits / 32) as usize;
        let x = synbuf[idx];
        assert(1 <= mm <= 31 ==> (x & !low_mask((32 - mm) as u32)) & low_mask((32 - mm) as u32) == 0
            && (1u32 << ((32 - mm) as u32)) >= 1) by (bit_vector);
        synbuf.set(idx, x & !((1u32 << (32 - mm)) - 1));
    }
    assert forall|k: int| 0 <= k < nsw implies synbuf@[k] == old(st).syndrome_word(
        data0,
        recvecc@,
        k,
    ) by {
        assert(parity == old(st).parity_of(data0));
    }
    assert(pc ==> forall|k: int| 0 <= k < nsw ==> synbuf@[k] == 0);
    let mut s: i32 = ecc_bits as i32;
    let mut synptr: usize = 0;
    while s > 0 || synptr == 0
        invariant
            st.wf(),
            n == st.n,
            t == st.t,
            ecc_bits == st.ecc_bits,
            1 <= ecc_bits <= 32 * ECC_MAX_WORDS,
            mm == ecc_bits % 32,
            s == ecc_bits - 32 * synptr,
            synbuf@.len() == ECC_MAX_WORDS,
            mm != 0 ==> synbuf@[(ecc_bits / 32) as int] & low_mask((32 - mm) as u32) == 0,
            syn@.len() == 2 * t,
            forall|j: int| 0 <= j < 2 * t ==> #[trigger] syn@[j] <= n,
            nsw == div_ceil(ecc_bits as int, 32),
            pc ==> forall|k: int| 0 <= k < nsw ==> synbuf@[k] == 0,
            pc ==> forall|j: int| 0 <= j < 2 * t ==> #[trigger] syn@[j] == 0,
            forall|k: int| 0 <= k < nsw ==> synbuf@[k] == old(st).syndrome_word(data0, recvecc@, k),
            syn@ == old(st).syn_words(data0, recvecc@, synptr as nat),
            synptr <= nsw,
            old(st).exponents@ == st.exponents@,
            old(st).n == n,
            old(st).t == t,
            old(st).ecc_bits == ecc_bits,
        decreases ecc_bits + 32 - 32 * synptr,
    {
        let mut poly = synbuf[synptr];
        let ghost target = old(st).syn_words(data0, recvecc@, (synptr + 1) as nat);
        let ghost mut fuel: nat = 32;
        assert(synptr < nsw);
        let ghost z: u32 = if s >= 32 {
            0
        } else {
            (32 - s) as u32
        };
        assert(poly & low_mask(z) == 0) by {
            if s >= 32 {
                assert(poly & low_mask(0) == 0) by (bit_vector);
            } else {
                assert(synptr == ecc_bits / 32);
            }
        }
        synptr = synptr + 1;
        s = s - 32;
        while poly != 0
            invariant
                st.wf(),
                n == st.n,
                t == st.t,
                z < 32,
                z + s >= 0,
                s <= 32 * ECC_MAX_WORDS,
                poly & low_mask(z) == 0,
                syn@.len() == 2 * t,
                forall|j: int| 0 <= j < 2 * t ==> #[trigger] syn@[j] <= n,
                pc ==> poly == 0,
                pc ==> forall|j: int| 0 <= j < 2 * t ==> #[trigger] syn@[j] == 0,
                fuel <= 32,
                fuel == 32 || poly >> (fuel as u32) == 0,
                syn_word(st.exponents@, n, syn@, poly, s as int, fuel) == target,
            decreases poly,
        {
            let i = top_bit(poly);
            proof {
                lemma_clear_top(poly, i, fuel as u32);
            }
            let ghost syn_before = syn@;
            assert(z < 32 && poly & low_mask(z) == 0 && poly >> i == 1u32 && i < 32 ==> i >= z && (poly
                ^ (1u32 << i)) < poly && (poly ^ (1u32 << i)) & low_mask(z) == 0) by (bit_vector);
            let e: u32 = (i as i32 + s) as u32;
            let mut j: u32 = 0;
            while j < 2 * t
                invariant
                    st.wf(),
                    n == st.n,
                    t == st.t,
                    j <= 2 * t + 1,
                    e <= 31 + 32 * ECC_MAX_WORDS,
                    !pc,
                    syn@.len() == 2 * t,
                    forall|jj: int| 0 <= jj < 2 * t ==> #[trigger] syn@[jj] <= n,
                    j % 2 == 0,
                    syn_before.len() == 2 * t,
                    forall|jj: int|
                        0 <= jj < 2 * t ==> #[trigger] syn@[jj] == (if jj < j && jj % 2 == 0 {
                            syn_before[jj] ^ st.exponents@[((jj + 1) * e) % (n as int)]
                        } else {
                            syn_before[jj]
                        }),
                decreases 2 * t + 1 - j,
            {
                assert((j + 1) * e <= 0x8000 * 2015) by (nonlinear_arith)
                    requires
                        j + 1 <= 0x8000,
                        e <= 2015,
                ;
                let p = st.g_pow((j + 1) * e);
                proof {
                    lemma_xor_bound(syn@[j as int], p, st.m);
                }
                let v = syn[j as usize] ^ p;
                syn.set(j as usize, v);
                j = j + 2;
            }
            assert(syn@ =~= syn_bit(st.exponents@, n, syn_before, e));
            assert(i == degree(poly));
            poly = poly ^ (1u32 << i);
            proof {
                fuel = (fuel - 1) as nat;
            }
        }
    }
    let ghost syn_all = syn@;
    assert(syn_all == old(st).syn_words(data0, recvecc@, nsw as nat));
    let mut i: u32 = 0;
    while i < t
        invariant
            st.wf(),
            n == st.n,
            t == st.t,
            syn@.len() == 2 * t,
            forall|j: int| 0 <= j < 2 * t ==> #[trigger] syn@[j] <= n,
            pc ==> forall|j: int| 0 <= j < 2 * t ==> #[trigger] syn@[j] == 0,
            i <= t,
            syn@ == sqrt_fill(st.exponents@, st.logarithms@, n, syn_all, i as nat),
        decreases t - i,
    {
        let v = st.g_sqrt(syn[i as usize]);
        syn.set((2 * i + 1) as usize, v);
        i = i + 1;
    }

    assert(syn@ == old(st).syndromes(data0, recvecc@));
    // error locator polynomial, by Berlekamp-Massey
    let mut pp: i32 = -1;
    let mut pd: u32 = 1;
    let mut pelp: Vec<u32> = vec![0; (2 * t) as usize];
    pelp.set(0, 1);
    let mut pelp_deg: u32 = 0;
    let mut elp: Vec<u32> = vec![0; (2 * t) as usize];
    elp.set(0, 1);
    let mut elp_deg: u32 = 0;
    let mut d: u32 = syn[0];
    let ghost sy = syn@;
    assert(elp@ =~= Seq::new((2 * t) as nat, |j: int| if j == 0 { 1u32 } else { 0u32 }));
    assert(pelp@ =~= elp@);
    let mut i: u32 = 0;
    while i < t
        invariant
            st.wf(),
            sy == syn@,
            (elp@, elp_deg as nat, pelp@, pelp_deg as nat, pp as int, pd, d) == st.bm(syn@, i as nat),
            n == st.n,
            t == st.t,
            i <= t,
            syn@.len() == 2 * t,
            forall|j: int| 0 <= j < 2 * t ==> #[trigger] syn@[j] <= n,
            elp@.len() == 2 * t,
            forall|j: int| 0 <= j < 2 * t ==> #[trigger] elp@[j] <= n,
            pelp@.len() == 2 * t,
            forall|j: int| 0 <= j < 2 * t ==> #[trigger] pelp@[j] <= n,
            -1 <= pp,
            pp == -1 || pp <= 2 * i - 2,
            elp_deg + pelp_deg == pp + 1,
            d <= n,
            pd <= n,
            pc ==> forall|j: int| 0 <= j < 2 * t ==> #[trigger] syn@[j] == 0,
            pc ==> d == 0 && elp_deg == 0,
        ensures
            i == t || elp_deg > t,
            i <= t,
            (elp@, elp_deg as nat, pelp@, pelp_deg as nat, pp as int, pd, d) == st.bm(syn@, i as nat),
        decreases t - i,
    {
        if elp_deg > t {
            break;
        }
        let ghost b0 = (elp@, elp_deg as nat, pelp@, pelp_deg as nat, pp as int, pd, d);
        if d != 0 {
            let k: u32 = (2 * (i as i32) - pp) as u32;
            let elp_copy = copy_words(&elp);
            let copy_deg = elp_deg;
            let tmp = st.g_log(d) + n - st.g_log(pd);
            let ghost elp_before = elp@;
            let mut j: u32 = 0;
            while j < pelp_deg + 1
                invariant
                    elp_before.len() == 2 * t,
                    forall|x: int|
                        0 <= x < 2 * t ==> #[trigger] elp@[x] == (if k <= x < j + k && pelp@[x - k]
                            != 0 {
                            elp_before[x] ^ st.exponents@[(tmp + st.logarithms@[pelp@[x - k] as int])
                                % (n as int)]
                        } else {
                            elp_before[x]
                        }),
                    j <= pelp_deg + 1,
                    st.wf(),
                    n == st.n,
                    t == st.t,
                    i < t,
                    k == 2 * i - pp,
                    pelp_deg + k == 2 * i + 1 - elp_deg,
                    tmp < 2 * n,
                    !pc,
                    elp@.len() == 2 * t,
                    forall|jj: int| 0 <= jj < 2 * t ==> #[trigger] elp@[jj] <= n,
                    pelp@.len() == 2 * t,
                    forall|jj: int| 0 <= jj < 2 * t ==> #[trigger] pelp@[jj] <= n,
                decreases pelp_deg + 1 - j,
            {
                if pelp[j as usize] != 0 {
                    let l = st.g_log(pelp[j as usize]);
                    let p = st.g_pow(tmp + l);
                    proof {
                        lemma_xor_bound(elp@[(j + k) as int], p, st.m);
                    }
                    let v = elp[(j + k) as usize] ^ p;
                    elp.set((j + k) as usize, v);
                }
                j = j + 1;
            }
            assert(elp@ =~= bm_update(
                st.exponents@,
                st.logarithms@,
                n,
                elp_before,
                pelp@,
                pelp_deg as int,
                k as int,
                tmp as int,
            ));
            assert(elp_copy@ == elp_before);
            let tmp = pelp_deg + k;
            if tmp > elp_deg {
                elp_deg = tmp;
                pelp = elp_copy;
                pelp_deg = copy_deg;
                pd = d;
                pp = (2 * i) as i32;
            }
        }
        if i < t - 1 {
            d = syn[(2 * i + 2) as usize];
            let mut j: u32 = 1;
            while j < elp_deg + 1
                invariant
                    d == d_fold(st.exponents@, st.logarithms@, n, elp@, syn@, i as int, (j - 1) as nat),
                    j <= elp_deg + 1,
                    st.wf(),
                    n == st.n,
                    t == st.t,
                    i < t - 1,
                    elp_deg <= 2 * i + 1,
                    d <= n,
                    pc ==> d == 0 && elp_deg == 0,
                    syn@.len() == 2 * t,
                    forall|jj: int| 0 <= jj < 2 * t ==> #[trigger] syn@[jj] <= n,
                    elp@.len() == 2 * t,
                    forall|jj: int| 0 <= jj < 2 * t ==> #[trigger] elp@[jj] <= n,
                    1 <= j,
                decreases elp_deg + 1 - j,
            {
                let p = st.g_mul(elp[j as usize], syn[(2 * i + 2 - j) as usize]);
                proof {
                    lemma_xor_bound(d, p, st.m);
                }
                d = d ^ p;
                j = j + 1;
            }
        }
        i = i + 1;
    }
    proof {
        if elp_deg > t {
            lemma_bm_stays(*st, syn@, i as nat, t as nat);
        }
    }
    assert(elp_deg > t <==> st.bm(syn@, t as nat).1 > t);
    assert(elp_deg <= t ==> elp@ == st.bm(syn@, t as nat).0 && elp_deg == st.bm(syn@, t as nat).1);

    // error positions
    let ghost st1 = *st;
    proof {
        lemma_bm_same(*old(st), st1, syn@, t as nat);
        assert(syn@ == old(st).syndromes(data0, recvecc@));
    }
    if elp_deg > t {
        st.errloc = Vec::new();
        return Correction::Uncorrectable;
    }
    proof {
        lemma_roots_same(*old(st), st1, data0.len() as u32, elp@, elp_deg as nat);
    }
    let nroots = match st.getroots(data.len() as u32, &elp, elp_deg) {
        Some(r) => r,
        None => {
            st.errloc = Vec::new();
            return Correction::Uncorrectable;
        },
    };
    let nbits: u32 = data.len() as u32 * 8 + ecc_bits;
    assert(pc ==> nroots@.len() == 0);
    let mut locs: Vec<u32> = Vec::new();
    let mut outside = false;
    let mut i: usize = 0;
    while i < nroots.len()
        invariant
            locs@.len() <= i,
            i <= nroots@.len(),
            nroots@.len() <= 2 * t,
            !outside ==> locs@.len() == i,
            pc ==> nroots@.len() == 0,
            pc ==> !outside,
            !outside ==> locs@ == Seq::new(i as nat, |q: int| locator_position(nbits, nroots@[q])),
            outside ==> i < nroots@.len() && nroots@[i as int] >= nbits,
            forall|q: int| 0 <= q < i ==> nroots@[q] < nbits,
        ensures
            !outside ==> i == nroots@.len(),
            !outside ==> locs@ == Seq::new(i as nat, |q: int| locator_position(nbits, nroots@[q])),
            outside ==> i < nroots@.len() && nroots@[i as int] >= nbits,
            forall|q: int| 0 <= q < i ==> nroots@[q] < nbits,
        decreases nroots.len() - i,
    {
        let e = nroots[i];
        if e >= nbits {
            outside = true;
            break;
        }
        let p = nbits - 1 - e;
        assert(p & 7 <= 7) by (bit_vector);
        locs.push((p & !7) | (7 - (p & 7)));
        i = i + 1;
        assert(locs@ =~= Seq::new(i as nat, |q: int| locator_position(nbits, nroots@[q])));
    }
    if outside {
        st.errloc = locs;
        return Correction::Uncorrectable;
    }
    assert(nbits == (data0.len() * 8 + old(st).ecc_bits) as u32);
    assert(locs@ =~= Seq::new(nroots@.len(), |q: int| locator_position(nbits, nroots@[q])));
    let dlen = data.len();
    let mut fixed = copy_bytes(data.as_slice());
    let mut recv_fixed = copy_bytes(recvecc);
    let mut i: usize = 0;
    while i < locs.len()
        invariant
            i <= locs@.len(),
            dlen == data0.len(),
            fixed@ == apply_flips(data0, locs@.take(i as int)),
            fixed@.len() == data0.len(),
            recv_fixed@ == apply_tail_flips(recvecc@, locs@.take(i as int), dlen as nat),
            recv_fixed@.len() == recvecc@.len(),
        decreases locs.len() - i,
    {
        let bitflip = locs[i];
        let byte = (bitflip / 8) as usize;
        assert(locs@.take(i + 1).drop_last() =~= locs@.take(i as int));
        assert(bitflip & 7 <= 7 && (1u32 << (bitflip & 7)) <= 128) by (bit_vector);
        if byte < dlen {
            let v = fixed[byte] ^ ((1u32 << (bitflip & 7)) as u8);
            fixed.set(byte, v);
        } else if byte - dlen < recv_fixed.len() {
            let v = recv_fixed[byte - dlen] ^ ((1u32 << (bitflip & 7)) as u8);
            recv_fixed.set(byte - dlen, v);
        }
        i = i + 1;
    }
    assert(locs@.take(locs@.len() as int) =~= locs@);
    assert(pc ==> locs@.len() == 0);
    assert(pc ==> fixed@ == data0 && recv_fixed@ == recvecc@);
    let ghost st2 = *st;
    let ok = check_parity(st, fixed.as_slice(), recv_fixed.as_slice());
    proof {
        lemma_passes_same(st2, *old(st));
    }
    if !ok {
        st.errloc = Vec::new();
        return Correction::Uncorrectable;
    }
    *data = fixed;
    let count = locs.len() as u32;
    st.errloc = locs;
    Correction::Corrected(count)
}

/// The steps of the exponent table of `POLYNOMIAL`, from `alpha` to `alpha^127`.
proof fn lemma_steps_137()
    ensures
        lfsr_step(137u32, 7u32, 1u32) == 2u32,
        lfsr_step(137u32, 7u32, 2u32) == 4u32,
        lfsr_step(137u32, 7u32, 4u32) == 8u32,
        lfsr_step(137u32, 7u32, 8u32) == 16u32,
        lfsr_step(137u32, 7u32, 16u32) == 32u32,
        lfsr_step(137u32, 7u32, 32u32) == 64u32,
        lfsr_step(137u32, 7u32, 64u32) == 9u32,
        lfsr_step(137u32, 7u32, 9u32) == 18u32,
        lfsr_step(137u32, 7u32, 18u32) == 36u32,
        lfsr_step(137u32, 7u32, 36u32) == 72u32,
        lfsr_step(137u32, 7u32, 72u32) == 25u32,
        lfsr_step(137u32, 7u32, 25u32) == 50u32,
        lfsr_step(137u32, 7u32, 50u32) == 100u32,
        lfsr_step(137u32, 7u32, 100u32) == 65u32,
        lfsr_step(137u32, 7u32, 65u32) == 11u32,
        lfsr_step(137u32, 7u32, 11u32) == 22u32,
        lfsr_step(137u32, 7u32, 22u32) == 44u32,
        lfsr_step(137u32, 7u32, 44u32) == 88u32,
        lfsr_step(137u32, 7u32, 88u32) == 57u32,
        lfsr_step(137u32, 7u32, 57u32) == 114u32,
        lfsr_step(137u32, 7u32, 114u32) == 109u32,
        lfsr_step(137u32, 7u32, 109u32) == 83u32,
        lfsr_step(137u32, 7u32, 83u32) == 47u32,
        lfsr_step(137u32, 7u32, 47u32) == 94u32,
        lfsr_step(137u32, 7u32, 94u32) == 53u32,
        lfsr_step(137u32, 7u32, 53u32) == 106u32,
        lfsr_step(137u32, 7u32, 106u32) == 93u32,
        lfsr_step(137u32, 7u32, 93u32) == 51u32,
        lfsr_step(137u32, 7u32, 51u32) == 102u32,
        lfsr_step(137u32, 7u32, 102u32) == 69u32,
        lfsr_step(137u32, 7u32, 69u32) == 3u32,
        lfsr_step(137u32, 7u32, 3u32) == 6u32,
        lfsr_step(137u32, 7u32, 6u32) == 12u32,
        lfsr_step(137u32, 7u32, 12u32) == 24u32,
        lfsr_step(137u32, 7u32, 24u32) == 48u32,
        lfsr_step(137u32, 7u32, 48u32) == 96u32,
        lfsr_step(137u32, 7u32, 96u32) == 73u32,
        lfsr_step(137u32, 7u32, 73u32) == 27u32,
        lfsr_step(137u32, 7u32, 27u32) == 54u32,
        lfsr_step(137u32, 7u32, 54u32) == 108u32,
        lfsr_step(137u32, 7u32, 108u32) == 81u32,
        lfsr_step(137u32, 7u32, 81u32) == 43u32,
        lfsr_step(137u32, 7u32, 43u32) == 86u32,
        lfsr_step(137u32, 7u32, 86u32) == 37u32,
        lfsr_step(137u32, 7u32, 37u32) == 74u32,
        lfsr_step(137u32, 7u32, 74u32) == 29u32,
        lfsr_step(137u32, 7u32, 29u32) == 58u32,
        lfsr_step(137u32, 7u32, 58u32) == 116u32,
        lfsr_step(137u32, 7u32, 116u32) == 97u32,
        lfsr_step(137u32, 7u32, 97u32) == 75u32,
        lfsr_step(137u32, 7u32, 75u32) == 31u32,
        lfsr_step(137u32, 7u32, 31u32) == 62u32,
        lfsr_step(137u32, 7u32, 62u32) == 124u32,
        lfsr_step(137u32, 7u32, 124u32) == 113u32,
        lfsr_step(137u32, 7u32, 113u32) == 107u32,
        lfsr_step(137u32, 7u32, 107u32) == 95u32,
        lfsr_step(137u32, 7u32, 95u32) == 55u32,
        lfsr_step(137u32, 7u32, 55u32) == 110u32,
        lfsr_step(137u32, 7u32, 110u32) == 85u32,
        lfsr_step(137u32, 7u32, 85u32) == 35u32,
        lfsr_step(137u32, 7u32, 35u32) == 70u32,
        lfsr_step(137u32, 7u32, 70u32) == 5u32,
        lfsr_step(137u32, 7u32, 5u32) == 10u32,
        lfsr_step(137u32, 7u32, 10u32) == 20u32,
        lfsr_step(137u32, 7u32, 20u32) == 40u32,
        lfsr_step(137u32, 7u32, 40u32) == 80u32,
        lfsr_step(137u32, 7u32, 80u32) == 41u32,
        lfsr_step(137u32, 7u32, 41u32) == 82u32,
        lfsr_step(137u32, 7u32, 82u32) == 45u32,
        lfsr_step(137u32, 7u32, 45u32) == 90u32,
        lfsr_step(137u32, 7u32, 90u32) == 61u32,
        lfsr_step(137u32, 7u32, 61u32) == 122u32,
        lfsr_step(137u32, 7u32, 122u32) == 125u32,
        lfsr_step(137u32, 7u32, 125u32) == 115u32,
        lfsr_step(137u32, 7u32, 115u32) == 111u32,
        lfsr_step(137u32, 7u32, 111u32) == 87u32,
        lfsr_step(137u32, 7u32, 87u32) == 39u32,
        lfsr_step(137u32, 7u32, 39u32) == 78u32,
        lfsr_step(137u32, 7u32, 78u32) == 21u32,
        lfsr_step(137u32, 7u32, 21u32) == 42u32,
        lfsr_step(137u32, 7u32, 42u32) == 84u32,
        lfsr_step(137u32, 7u32, 84u32) == 33u32,
        lfsr_step(137u32, 7u32, 33u32) == 66u32,
        lfsr_step(137u32, 7u32, 66u32) == 13u32,
        lfsr_step(137u32, 7u32, 13u32) == 26u32,
        lfsr_step(137u32, 7u32, 26u32) == 52u32,
        lfsr_step(137u32, 7u32, 52u32) == 104u32,
        lfsr_step(137u32, 7u32, 104u32) == 89u32,
        lfsr_step(137u32, 7u32, 89u32) == 59u32,
        lfsr_step(137u32, 7u32, 59u32) == 118u32,
        lfsr_step(137u32, 7u32, 118u32) == 101u32,
        lfsr_step(137u32, 7u32, 101u32) == 67u32,
        lfsr_step(137u32, 7u32, 67u32) == 15u32,
        lfsr_step(137u32, 7u32, 15u32) == 30u32,
        lfsr_step(137u32, 7u32, 30u32) == 60u32,
        lfsr_step(137u32, 7u32, 60u32) == 120u32,
        lfsr_step(137u32, 7u32, 120u32) == 121u32,
        lfsr_step(137u32, 7u32, 121u32) == 123u32,
        lfsr_step(137u32, 7u32, 123u32) == 127u32,
        lfsr_step(137u32, 7u32, 127u32) == 119u32,
        lfsr_step(137u32, 7u32, 119u32) == 103u32,
        lfsr_step(137u32, 7u32, 103u32) == 71u32,
        lfsr_step(137u32, 7u32, 71u32) == 7u32,
        lfsr_step(137u32, 7u32, 7u32) == 14u32,
        lfsr_step(137u32, 7u32, 14u32) == 28u32,
        lfsr_step(137u32, 7u32, 28u32) == 56u32,
        lfsr_step(137u32, 7u32, 56u32) == 112u32,
        lfsr_step(137u32, 7u32, 112u32) == 105u32,
        lfsr_step(137u32, 7u32, 105u32) == 91u32,
        lfsr_step(137u32, 7u32, 91u32) == 63u32,
        lfsr_step(137u32, 7u32, 63u32) == 126u32,
        lfsr_step(137u32, 7u32, 126u32) == 117u32,
        lfsr_step(137u32, 7u32, 117u32) == 99u32,
        lfsr_step(137u32, 7u32, 99u32) == 79u32,
        lfsr_step(137u32, 7u32, 79u32) == 23u32,
        lfsr_step(137u32, 7u32, 23u32) == 46u32,
        lfsr_step(137u32, 7u32, 46u32) == 92u32,
        lfsr_step(137u32, 7u32, 92u32) == 49u32,
        lfsr_step(137u32, 7u32, 49u32) == 98u32,
        lfsr_step(137u32, 7u32, 98u32) == 77u32,
        lfsr_step(137u32, 7u32, 77u32) == 19u32,
        lfsr_step(137u32, 7u32, 19u32) == 38u32,
        lfsr_step(137u32, 7u32, 38u32) == 76u32,
        lfsr_step(137u32, 7u32, 76u32) == 17u32,
        lfsr_step(137u32, 7u32, 17u32) == 34u32,
        lfsr_step(137u32, 7u32, 34u32) == 68u32,
        lfsr_step(137u32, 7u32, 68u32) == 1u32,
{
    assert(lfsr_step(137u32, 7u32, 1u32) == 2u32 && lfsr_step(137u32, 7u32, 2u32) == 4u32 && lfsr_step(137u32, 7u32, 4u32) == 8u32 && lfsr_step(137u32, 7u32, 8u32) == 16u32 && lfsr_step(137u32, 7u32, 16u32) == 32u32 && lfsr_step(137u32, 7u32, 32u32) == 64u32 && lfsr_step(137u32, 7u32, 64u32) == 9u32 && lfsr_step(137u32, 7u32, 9u32) == 18u32 && lfsr_step(137u32, 7u32, 18u32) == 36u32 && lfsr_step(137u32, 7u32, 36u32) == 72u32 && lfsr_step(137u32, 7u32, 72u32) == 25u32 && lfsr_step(137u32, 7u32, 25u32) == 50u32 && lfsr_step(137u32, 7u32, 50u32) == 100u32 && lfsr_step(137u32, 7u32, 100u32) == 65u32 && lfsr_step(137u32, 7u32, 65u32) == 11u32 && lfsr_step(137u32, 7u32, 11u32) == 22u32 && lfsr_step(137u32, 7u32, 22u32) == 44u32 && lfsr_step(137u32, 7u32, 44u32) == 88u32 && lfsr_step(137u32, 7u32, 88u32) == 57u32 && lfsr_step(137u32, 7u32, 57u32) == 114u32 && lfsr_step(137u32, 7u32, 114u32) == 109u32 && lfsr_step(137u32, 7u32, 109u32) == 83u32 && lfsr_step(137u32, 7u32, 83u32) == 47u32 && lfsr_step(137u32, 7u32, 47u32) == 94u32 && lfsr_step(137u32, 7u32, 94u32) == 53u32 && lfsr_step(137u32, 7u32, 53u32) == 106u32 && lfsr_step(137u32, 7u32, 106u32) == 93u32 && lfsr_step(137u32, 7u32, 93u32) == 51u32 && lfsr_step(137u32, 7u32, 51u32) == 102u32 && lfsr_step(137u32, 7u32, 102u32) == 69u32 && lfsr_step(137u32, 7u32, 69u32) == 3u32 && lfsr_step(137u32, 7u32, 3u32) == 6u32 && lfsr_step(137u32, 7u32, 6u32) == 12u32 && lfsr_step(137u32, 7u32, 12u32) == 24u32 && lfsr_step(137u32, 7u32, 24u32) == 48u32 && lfsr_step(137u32, 7u32, 48u32) == 96u32 && lfsr_step(137u32, 7u32, 96u32) == 73u32 && lfsr_step(137u32, 7u32, 73u32) == 27u32 && lfsr_step(137u32, 7u32, 27u32) == 54u32 && lfsr_step(137u32, 7u32, 54u32) == 108u32 && lfsr_step(137u32, 7u32, 108u32) == 81u32 && lfsr_step(137u32, 7u32, 81u32) == 43u32 && lfsr_step(137u32, 7u32, 43u32) == 86u32 && lfsr_step(137u32, 7u32, 86u32) == 37u32 && lfsr_step(137u32, 7u32, 37u32) == 74u32 && lfsr_step(137u32, 7u32, 74u32) == 29u32 && lfsr_step(137u32, 7u32, 29u32) == 58u32 && lfsr_step(137u32, 7u32, 58u32) == 116u32 && lfsr_step(137u32, 7u32, 116u32) == 97u32 && lfsr_step(137u32, 7u32, 97u32) == 75u32 && lfsr_step(137u32, 7u32, 75u32) == 31u32 && lfsr_step(137u32, 7u32, 31u32) == 62u32 && lfsr_step(137u32, 7u32, 62u32) == 124u32 && lfsr_step(137u32, 7u32, 124u32) == 113u32 && lfsr_step(137u32, 7u32, 113u32) == 107u32 && lfsr_step(137u32, 7u32, 107u32) == 95u32 && lfsr_step(137u32, 7u32, 95u32) == 55u32 && lfsr_step(137u32, 7u32, 55u32) == 110u32 && lfsr_step(137u32, 7u32, 110u32) == 85u32 && lfsr_step(137u32, 7u32, 85u32) == 35u32 && lfsr_step(137u32, 7u32, 35u32) == 70u32 && lfsr_step(137u32, 7u32, 70u32) == 5u32 && lfsr_step(137u32, 7u32, 5u32) == 10u32 && lfsr_step(137u32, 7u32, 10u32) == 20u32 && lfsr_step(137u32, 7u32, 20u32) == 40u32 && lfsr_step(137u32, 7u32, 40u32) == 80u32 && lfsr_step(137u32, 7u32, 80u32) == 41u32 && lfsr_step(137u32, 7u32, 41u32) == 82u32 && lfsr_step(137u32, 7u32, 82u32) == 45u32 && lfsr_step(137u32, 7u32, 45u32) == 90u32 && lfsr_step(137u32, 7u32, 90u32) == 61u32 && lfsr_step(137u32, 7u32, 61u32) == 122u32 && lfsr_step(137u32, 7u32, 122u32) == 125u32 && lfsr_step(137u32, 7u32, 125u32) == 115u32 && lfsr_step(137u32, 7u32, 115u32) == 111u32 && lfsr_step(137u32, 7u32, 111u32) == 87u32 && lfsr_step(137u32, 7u32, 87u32) == 39u32 && lfsr_step(137u32, 7u32, 39u32) == 78u32 && lfsr_step(137u32, 7u32, 78u32) == 21u32 && lfsr_step(137u32, 7u32, 21u32) == 42u32 && lfsr_step(137u32, 7u32, 42u32) == 84u32 && lfsr_step(137u32, 7u32, 84u32) == 33u32 && lfsr_step(137u32, 7u32, 33u32) == 66u32 && lfsr_step(137u32, 7u32, 66u32) == 13u32 && lfsr_step(137u32, 7u32, 13u32) == 26u32 && lfsr_step(137u32, 7u32, 26u32) == 52u32 && lfsr_step(137u32, 7u32, 52u32) == 104u32 && lfsr_step(137u32, 7u32, 104u32) == 89u32 && lfsr_step(137u32, 7u32, 89u32) == 59u32 && lfsr_step(137u32, 7u32, 59u32) == 118u32 && lfsr_step(137u32, 7u32, 118u32) == 101u32 && lfsr_step(137u32, 7u32, 101u32) == 67u32 && lfsr_step(137u32, 7u32, 67u32) == 15u32 && lfsr_step(137u32, 7u32, 15u32) == 30u32 && lfsr_step(137u32, 7u32, 30u32) == 60u32 && lfsr_step(137u32, 7u32, 60u32) == 120u32 && lfsr_step(137u32, 7u32, 120u32) == 121u32 && lfsr_step(137u32, 7u32, 121u32) == 123u32 && lfsr_step(137u32, 7u32, 123u32) == 127u32 && lfsr_step(137u32, 7u32, 127u32) == 119u32 && lfsr_step(137u32, 7u32, 119u32) == 103u32 && lfsr_step(137u32, 7u32, 103u32) == 71u32 && lfsr_step(137u32, 7u32, 71u32) == 7u32 && lfsr_step(137u32, 7u32, 7u32) == 14u32 && lfsr_step(137u32, 7u32, 14u32) == 28u32 && lfsr_step(137u32, 7u32, 28u32) == 56u32 && lfsr_step(137u32, 7u32, 56u32) == 112u32 && lfsr_step(137u32, 7u32, 112u32) == 105u32 && lfsr_step(137u32, 7u32, 105u32) == 91u32 && lfsr_step(137u32, 7u32, 91u32) == 63u32 && lfsr_step(137u32, 7u32, 63u32) == 126u32 && lfsr_step(137u32, 7u32, 126u32) == 117u32 && lfsr_step(137u32, 7u32, 117u32) == 99u32 && lfsr_step(137u32, 7u32, 99u32) == 79u32 && lfsr_step(137u32, 7u32, 79u32) == 23u32 && lfsr_step(137u32, 7u32, 23u32) == 46u32 && lfsr_step(137u32, 7u32, 46u32) == 92u32 && lfsr_step(137u32, 7u32, 92u32) == 49u32 && lfsr_step(137u32, 7u32, 49u32) == 98u32 && lfsr_step(137u32, 7u32, 98u32) == 77u32 && lfsr_step(137u32, 7u32, 77u32) == 19u32 && lfsr_step(137u32, 7u32, 19u32) == 38u32 && lfsr_step(137u32, 7u32, 38u32) == 76u32 && lfsr_step(137u32, 7u32, 76u32) == 17u32 && lfsr_step(137u32, 7u32, 17u32) == 34u32 && lfsr_step(137u32, 7u32, 34u32) == 68u32 && lfsr_step(137u32, 7u32, 68u32) == 1u32) by (bit_vector);
}

/// `POLYNOMIAL` is primitive of degree 7: the field has 127 nonzero elements,
/// and every capacity up to 8 bit flips gives valid parameters.
pub proof fn lemma_polynomial_valid(t: u32)
    requires
        1 <= t <= 8,
    ensures
        degree(POLYNOMIAL) == 7,
        (1u32 << 7u32) == 128u32,
        valid_params(t, POLYNOMIAL),
{
    assert(is_top_bit(137u32, 7u32)) by (bit_vector);
    assert(is_top_bit(137u32, degree(137u32)));
    lemma_top_bit_unique(137u32, 7u32, degree(137u32));
    assert((1u32 << 7u32) == 128u32) by (bit_vector);
    lemma_steps_137();
    assert(no_one_within(137u32, 7u32, 1u32, 0nat));
    assert(no_one_within(137u32, 7u32, 68u32, 1nat));
    assert(no_one_within(137u32, 7u32, 34u32, 2nat));
    assert(no_one_within(137u32, 7u32, 17u32, 3nat));
    assert(no_one_within(137u32, 7u32, 76u32, 4nat));
    assert(no_one_within(137u32, 7u32, 38u32, 5nat));
    assert(no_one_within(137u32, 7u32, 19u32, 6nat));
    assert(no_one_within(137u32, 7u32, 77u32, 7nat));
    assert(no_one_within(137u32, 7u32, 98u32, 8nat));
    assert(no_one_within(137u32, 7u32, 49u32, 9nat));
    assert(no_one_within(137u32, 7u32, 92u32, 10nat));
    assert(no_one_within(137u32, 7u32, 46u32, 11nat));
    assert(no_one_within(137u32, 7u32, 23u32, 12nat));
    assert(no_one_within(137u32, 7u32, 79u32, 13nat));
    assert(no_one_within(137u32, 7u32, 99u32, 14nat));
    assert(no_one_within(137u32, 7u32, 117u32, 15nat));
    assert(no_one_within(137u32, 7u32, 126u32, 16nat));
    assert(no_one_within(137u32, 7u32, 63u32, 17nat));
    assert(no_one_within(137u32, 7u32, 91u32, 18nat));
    assert(no_one_within(137u32, 7u32, 105u32, 19nat));
    assert(no_one_within(137u32, 7u32, 112u32, 20nat));
    assert(no_one_within(137u32, 7u32, 56u32, 21nat));
    assert(no_one_within(137u32, 7u32, 28u32, 22nat));
    assert(no_one_within(137u32, 7u32, 14u32, 23nat));
    assert(no_one_within(137u32, 7u32, 7u32, 24nat));
    assert(no_one_within(137u32, 7u32, 71u32, 25nat));
    assert(no_one_within(137u32, 7u32, 103u32, 26nat));
    assert(no_one_within(137u32, 7u32, 119u32, 27nat));
    assert(no_one_within(137u32, 7u32, 127u32, 28nat));
    assert(no_one_within(137u32, 7u32, 123u32, 29nat));
    assert(no_one_within(137u32, 7u32, 121u32, 30nat));
    assert(no_one_within(137u32, 7u32, 120u32, 31nat));
    assert(no_one_within(137u32, 7u32, 60u32, 32nat));
    assert(no_one_within(137u32, 7u32, 30u32, 33nat));
    assert(no_one_within(137u32, 7u32, 15u32, 34nat));
    assert(no_one_within(137u32, 7u32, 67u32, 35nat));
    assert(no_one_within(137u32, 7u32, 101u32, 36nat));
    assert(no_one_within(137u32, 7u32, 118u32, 37nat));
    assert(no_one_within(137u32, 7u32, 59u32, 38nat));
    assert(no_one_within(137u32, 7u32, 89u32, 39nat));
    assert(no_one_within(137u32, 7u32, 104u32, 40nat));
    assert(no_one_within(137u32, 7u32, 52u32, 41nat));
    assert(no_one_within(137u32, 7u32, 26u32, 42nat));
    assert(no_one_within(137u32, 7u32, 13u32, 43nat));
    assert(no_one_within(137u32, 7u32, 66u32, 44nat));
    assert(no_one_within(137u32, 7u32, 33u32, 45nat));
    assert(no_one_within(137u32, 7u32, 84u32, 46nat));
    assert(no_one_within(137u32, 7u32, 42u32, 47nat));
    assert(no_one_within(137u32, 7u32, 21u32, 48nat));
    assert(no_one_within(137u32, 7u32, 78u32, 49nat));
    assert(no_one_within(137u32, 7u32, 39u32, 50nat));
    assert(no_one_within(137u32, 7u32, 87u32, 51nat));
    assert(no_one_within(137u32, 7u32, 111u32, 52nat));
    assert(no_one_within(137u32, 7u32, 115u32, 53nat));
    assert(no_one_within(137u32, 7u32, 125u32, 54nat));
    assert(no_one_within(137u32, 7u32, 122u32, 55nat));
    assert(no_one_within(137u32, 7u32, 61u32, 56nat));
    assert(no_one_within(137u32, 7u32, 90u32, 57nat));
    assert(no_one_within(137u32, 7u32, 45u32, 58nat));
    assert(no_one_within(137u32, 7u32, 82u32, 59nat));
    assert(no_one_within(137u32, 7u32, 41u32, 60nat));
    assert(no_one_within(137u32, 7u32, 80u32, 61nat));
    assert(no_one_within(137u32, 7u32, 40u32, 62nat));
    assert(no_one_within(137u32, 7u32, 20u32, 63nat));
    assert(no_one_within(137u32, 7u32, 10u32, 64nat));
    assert(no_one_within(137u32, 7u32, 5u32, 65nat));
    assert(no_one_within(137u32, 7u32, 70u32, 66nat));
    assert(no_one_within(137u32, 7u32, 35u32, 67nat));
    assert(no_one_within(137u32, 7u32, 85u32, 68nat));
    assert(no_one_within(137u32, 7u32, 110u32, 69nat));
    assert(no_one_within(137u32, 7u32, 55u32, 70nat));
    assert(no_one_within(137u32, 7u32, 95u32, 71nat));
    assert(no_one_within(137u32, 7u32, 107u32, 72nat));
    assert(no_one_within(137u32, 7u32, 113u32, 73nat));
    assert(no_one_within(137u32, 7u32, 124u32, 74nat));
    assert(no_one_within(137u32, 7u32, 62u32, 75nat));
    assert(no_one_within(137u32, 7u32, 31u32, 76nat));
    assert(no_one_within(137u32, 7u32, 75u32, 77nat));
    assert(no_one_within(137u32, 7u32, 97u32, 78nat));
    assert(no_one_within(137u32, 7u32, 116u32, 79nat));
    assert(no_one_within(137u32, 7u32, 58u32, 80nat));
    assert(no_one_within(137u32, 7u32, 29u32, 81nat));
    assert(no_one_within(137u32, 7u32, 74u32, 82nat));
    assert(no_one_within(137u32, 7u32, 37u32, 83nat));
    assert(no_one_within(137u32, 7u32, 86u32, 84nat));
    assert(no_one_within(137u32, 7u32, 43u32, 85nat));
    assert(no_one_within(137u32, 7u32, 81u32, 86nat));
    assert(no_one_within(137u32, 7u32, 108u32, 87nat));
    assert(no_one_within(137u32, 7u32, 54u32, 88nat));
    assert(no_one_within(137u32, 7u32, 27u32, 89nat));
    assert(no_one_within(137u32, 7u32, 73u32, 90nat));
    assert(no_one_within(137u32, 7u32, 96u32, 91nat));
    assert(no_one_within(137u32, 7u32, 48u32, 92nat));
    assert(no_one_within(137u32, 7u32, 24u32, 93nat));
    assert(no_one_within(137u32, 7u32, 12u32, 94nat));
    assert(no_one_within(137u32, 7u32, 6u32, 95nat));
    assert(no_one_within(137u32, 7u32, 3u32, 96nat));
    assert(no_one_within(137u32, 7u32, 69u32, 97nat));
    assert(no_one_within(137u32, 7u32, 102u32, 98nat));
    assert(no_one_within(137u32, 7u32, 51u32, 99nat));
    assert(no_one_within(137u32, 7u32, 93u32, 100nat));
    assert(no_one_within(137u32, 7u32, 106u32, 101nat));
    assert(no_one_within(137u32, 7u32, 53u32, 102nat));
    assert(no_one_within(137u32, 7u32, 94u32, 103nat));
    assert(no_one_within(137u32, 7u32, 47u32, 104nat));
    assert(no_one_within(137u32, 7u32, 83u32, 105nat));
    assert(no_one_within(137u32, 7u32, 109u32, 106nat));
    assert(no_one_within(137u32, 7u32, 114u32, 107nat));
    assert(no_one_within(137u32, 7u32, 57u32, 108nat));
    assert(no_one_within(137u32, 7u32, 88u32, 109nat));
    assert(no_one_within(137u32, 7u32, 44u32, 110nat));
    assert(no_one_within(137u32, 7u32, 22u32, 111nat));
    assert(no_one_within(137u32, 7u32, 11u32, 112nat));
    assert(no_one_within(137u32, 7u32, 65u32, 113nat));
    assert(no_one_within(137u32, 7u32, 100u32, 114nat));
    assert(no_one_within(137u32, 7u32, 50u32, 115nat));
    assert(no_one_within(137u32, 7u32, 25u32, 116nat));
    assert(no_one_within(137u32, 7u32, 72u32, 117nat));
    assert(no_one_within(137u32, 7u32, 36u32, 118nat));
    assert(no_one_within(137u32, 7u32, 18u32, 119nat));
    assert(no_one_within(137u32, 7u32, 9u32, 120nat));
    assert(no_one_within(137u32, 7u32, 64u32, 121nat));
    assert(no_one_within(137u32, 7u32, 32u32, 122nat));
    assert(no_one_within(137u32, 7u32, 16u32, 123nat));
    assert(no_one_within(137u32, 7u32, 8u32, 124nat));
    assert(no_one_within(137u32, 7u32, 4u32, 125nat));
    assert(no_one_within(137u32, 7u32, 2u32, 126nat));
    assert(is_primitive(137u32, 7u32));
}


proof fn lemma_word_bytes(w: u32)
    ensures
        ((((w >> 24u32) & 0xff) as u8 as u32) << 24u32) | ((((w >> 16u32) & 0xff) as u8 as u32)
            << 16u32) | ((((w >> 8u32) & 0xff) as u8 as u32) << 8u32) | (((w >> 0u32) & 0xff) as u8
            as u32) == w,
{
    assert(((((w >> 24u32) & 0xff) as u8 as u32) << 24u32) | ((((w >> 16u32) & 0xff) as u8 as u32)
        << 16u32) | ((((w >> 8u32) & 0xff) as u8 as u32) << 8u32) | (((w >> 0u32) & 0xff) as u8
        as u32) == w) by (bit_vector);
}

proof fn lemma_partial_word(w: u32, kk: u32, e: u32)
    requires
        1 <= kk <= 3,
        1 <= e <= 8 * kk,
    ensures
        ({
            let b0 = ((w >> 24u32) & 0xff) as u8 as u32;
            let b1 = if kk >= 2 {
                ((w >> 16u32) & 0xff) as u8 as u32
            } else {
                0u32
            };
            let b2 = if kk >= 3 {
                ((w >> 8u32) & 0xff) as u8 as u32
            } else {
                0u32
            };
            (w ^ ((b0 << 24u32) | (b1 << 16u32) | (b2 << 8u32) | 0u32)) & !low_mask((32 - e) as u32)
                == 0
        }),
{
    assert(1 <= kk <= 3 && 1 <= e <= 8 * kk ==> ({
        let b0 = ((w >> 24u32) & 0xff) as u8 as u32;
        let b1 = if kk >= 2 {
            ((w >> 16u32) & 0xff) as u8 as u32
        } else {
            0u32
        };
        let b2 = if kk >= 3 {
            ((w >> 8u32) & 0xff) as u8 as u32
        } else {
            0u32
        };
        (w ^ ((b0 << 24u32) | (b1 << 16u32) | (b2 << 8u32) | 0u32)) & !low_mask((32 - e) as u32)
            == 0
    })) by (bit_vector);
}

proof fn lemma_xor_self(w: u32)
    ensures
        w ^ w == 0,
{
    assert(w ^ w == 0) by (bit_vector);
}

/// Decoding `data` against the parity that the same tables give to it finds
/// nothing to correct: the `ecc_bytes` bytes that encoding returns pass the
/// decoder's check.
pub proof fn lemma_own_parity_passes(st: EccState, data: Seq<u8>)
    requires
        st.wf(),
    ensures
        st.passes_check(data, register_bytes(st.parity_of(data), st.ecc_bytes as nat)),
{
    let r = st.parity_of(data);
    let k = st.ecc_bytes as int;
    let recv = register_bytes(r, k as nat);
    let deg = st.ecc_bits as int;
    assert forall|i: int| 0 <= i < div_ceil(deg, 32) implies #[trigger] st.syndrome_word(
        data,
        recv,
        i,
    ) == 0 by {
        let w = r[i];
        assert(32 * i < deg);
        assert(deg <= 8 * k);
        assert(4 * i < k);
        assert((4 * i) / 4 == i && (4 * i) % 4 == 0);
        assert((4 * i + 1) / 4 == i && (4 * i + 1) % 4 == 1);
        assert((4 * i + 2) / 4 == i && (4 * i + 2) % 4 == 2);
        assert((4 * i + 3) / 4 == i && (4 * i + 3) % 4 == 3);
        assert(byte_or_zero(recv, 4 * i) == ((w >> 24u32) & 0xff) as u8);
        if 4 * i + 3 < k {
            assert(byte_or_zero(recv, 4 * i + 1) == ((w >> 16u32) & 0xff) as u8);
            assert(byte_or_zero(recv, 4 * i + 2) == ((w >> 8u32) & 0xff) as u8);
            assert(byte_or_zero(recv, 4 * i + 3) == ((w >> 0u32) & 0xff) as u8);
            lemma_word_bytes(w);
            assert(recv_word(recv, i) == w);
            lemma_xor_self(w);
            assert(0u32 & !low_mask((32 - deg % 32) as u32) == 0) by {
                let z = (32 - deg % 32) as u32;
                assert(0u32 & !low_mask(z) == 0) by (bit_vector);
            }
        } else {
            let kk = (k - 4 * i) as u32;
            let e = (deg - 32 * i) as u32;
            assert(1 <= kk <= 3);
            assert(deg % 32 == e && deg / 32 == i);
            if kk >= 2 {
                assert(byte_or_zero(recv, 4 * i + 1) == ((w >> 16u32) & 0xff) as u8);
            } else {
                assert(byte_or_zero(recv, 4 * i + 1) == 0);
            }
            if kk >= 3 {
                assert(byte_or_zero(recv, 4 * i + 2) == ((w >> 8u32) & 0xff) as u8);
            } else {
                assert(byte_or_zero(recv, 4 * i + 2) == 0);
            }
            assert(byte_or_zero(recv, 4 * i + 3) == 0);
            lemma_partial_word(w, kk, e);
        }
    }
}

} // verus!
