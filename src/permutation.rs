use vstd::prelude::*;
use vstd::arithmetic::div_mod::{lemma_fundamental_div_mod, lemma_mod_mod};
use vstd::arithmetic::power2::{lemma2_to64, lemma_pow2_adds, lemma_pow2_pos, lemma_pow2_unfold, pow2};
use vstd::bits::{lemma_u32_low_bits_mask_is_mod, low_bits_mask};
use vstd::relations::injective_on;
use vstd::set_lib::{lemma_int_range, lemma_map_size, lemma_subset_equality, set_int_range};
use vstd::wrapping::u32_specs::{wrapping_add, wrapping_mul};

verus! {

/// The values that fix one visiting order over `[0, len)`.
///
/// The order runs an invertible mixer over `[0, 2^log2_modulus)`, keeps the
/// outputs below `len`, and rotates each kept output by `uniform_first`.
#[derive(Copy, Clone, Debug, PartialEq, Eq, Structural)]
pub struct PermutationParams {
    pub len: u32,
    pub log2_modulus: u32,
    pub displace_zero: u32,
    pub odd1: u32,
    pub odd2: u32,
    pub uniform_first: u32,
}

impl PermutationParams {
    /// The size of the mixer's domain, a power of two.
    pub open spec fn modulus(self) -> nat {
        pow2(self.log2_modulus as nat)
    }

    /// The mask that keeps the low `log2_modulus` bits.
    pub open spec fn mask(self) -> u32 {
        low_bits_mask(self.log2_modulus as nat) as u32
    }

    /// The shift of the mixer's xor step: half the bit width, rounded up.
    pub open spec fn halfwidth(self) -> u32 {
        ((self.log2_modulus + 1) / 2) as u32
    }

    pub open spec fn wf(self) -> bool {
        &&& self.log2_modulus < 32
        &&& self.len <= self.modulus()
        &&& self.odd1 % 2 == 1
        &&& self.odd2 % 2 == 1
        &&& (self.uniform_first < self.len || (self.len == 0 && self.uniform_first == 0))
    }

    /// The mixer: an invertible map of `[0, modulus)` onto itself.
    pub open spec fn mix(self, i: u32) -> u32 {
        let x = wrapping_mul(wrapping_add(i, self.displace_zero), self.odd1);
        let y = x ^ ((x & self.mask()) >> self.halfwidth());
        wrapping_mul(y, self.odd2) & self.mask()
    }

    /// Rotation of `[0, len)` by `uniform_first`.
    pub open spec fn rotate(self, v: u32) -> u32 {
        if v + self.uniform_first >= self.len {
            (v + self.uniform_first - self.len) as u32
        } else {
            (v + self.uniform_first) as u32
        }
    }

    /// What the mixer's first `n` inputs contribute to the order.
    pub open spec fn prefix(self, n: nat) -> Seq<u32>
        decreases n,
    {
        if n == 0 {
            seq![]
        } else {
            let s = self.prefix((n - 1) as nat);
            let v = self.mix((n - 1) as u32);
            if v < self.len {
                s.push(self.rotate(v))
            } else {
                s
            }
        }
    }

    /// The whole visiting order.
    pub open spec fn order(self) -> Seq<u32> {
        self.prefix(self.modulus())
    }
}

/// The mask of `k < 32` low bits is one less than a power of two.
proof fn lemma_mask_facts(k: nat, i: u32)
    requires
        k < 32,
    ensures
        (low_bits_mask(k) as u32) & (((low_bits_mask(k) as u32) + 1) as u32) == 0,
        i < pow2(k) ==> i & (low_bits_mask(k) as u32) == i,
        i & (low_bits_mask(k) as u32) < pow2(k),
        pow2(k) <= 0x8000_0000,
{
    lemma_pow2_pos(k);
    vstd::bits::lemma_u32_pow2_no_overflow(k);
    vstd::arithmetic::power2::lemma_pow2_strictly_increases(k, 32);
    lemma2_to64();
    if k < 31 {
        vstd::arithmetic::power2::lemma_pow2_strictly_increases(k, 31);
    }
    let m = low_bits_mask(k) as u32;
    assert(m + 1 == pow2(k));
    let p1 = ((m + 1) as u32);
    lemma_u32_low_bits_mask_is_mod(p1, k);
    assert(p1 % (pow2(k) as u32) == 0);
    assert(p1 & m == m & p1) by (bit_vector);
    lemma_u32_low_bits_mask_is_mod(i, k);
    if i < pow2(k) {
        vstd::arithmetic::div_mod::lemma_small_mod(i as nat, pow2(k));
    }
}


/// If `z * o` is a multiple of `2^k` and `o` is odd, then `z` is a multiple of `2^k`.
proof fn lemma_odd_factor_divides(z: int, o: int, k: nat)
    requires
        o % 2 == 1,
        (z * o) % (pow2(k) as int) == 0,
    ensures
        z % (pow2(k) as int) == 0,
    decreases k,
{
    if k > 0 {
        let p = pow2((k - 1) as nat) as int;
        lemma_pow2_unfold(k);
        lemma_pow2_pos((k - 1) as nat);
        let q = (z * o) / (2 * p);
        lemma_fundamental_div_mod(z * o, 2 * p);
        assert(z * o == 2 * (p * q)) by (nonlinear_arith)
            requires
                z * o == (2 * p) * q + (z * o) % (2 * p),
                (z * o) % (2 * p) == 0,
        ;
        let w = z / 2;
        lemma_fundamental_div_mod(z, 2);
        assert(z % 2 == 0) by (nonlinear_arith)
            requires
                z * o == 2 * (p * q),
                o % 2 == 1,
                z == 2 * (z / 2) + z % 2,
                0 <= z % 2 < 2,
        {
            if z % 2 == 1 {
                let a = z / 2;
                let b = o / 2;
                assert(o == 2 * b + 1);
                assert(z * o == 2 * (2 * a * b + a + b) + 1);
            }
        }
        assert(w * o == p * q) by (nonlinear_arith)
            requires
                z == 2 * w,
                z * o == 2 * (p * q),
        ;
        assert((w * o) % p == 0) by (nonlinear_arith)
            requires
                w * o == p * q,
                p > 0,
        {
            vstd::arithmetic::div_mod::lemma_mod_multiples_basic(q, p);
        }
        lemma_odd_factor_divides(w, o, (k - 1) as nat);
        let r = w / p;
        lemma_fundamental_div_mod(w, p);
        assert(z % (2 * p) == 0) by (nonlinear_arith)
            requires
                z == 2 * w,
                w == p * r + w % p,
                w % p == 0,
                p > 0,
        {
            vstd::arithmetic::div_mod::lemma_mod_multiples_basic(r, 2 * p);
            assert(z == r * (2 * p));
        }
    } else {
        lemma2_to64();
    }
}

/// Multiplying by an odd constant is injective on the low `k` bits.
proof fn lemma_mul_odd_low_bits(a: u32, b: u32, o: u32, k: nat)
    requires
        k < 32,
        o % 2 == 1,
        wrapping_mul(a, o) & (low_bits_mask(k) as u32) == wrapping_mul(b, o) & (low_bits_mask(k) as u32),
    ensures
        a & (low_bits_mask(k) as u32) == b & (low_bits_mask(k) as u32),
{
    let p = pow2(k) as int;
    lemma_pow2_pos(k);
    lemma_u32_low_bits_mask_is_mod(wrapping_mul(a, o), k);
    lemma_u32_low_bits_mask_is_mod(wrapping_mul(b, o), k);
    lemma_u32_low_bits_mask_is_mod(a, k);
    lemma_u32_low_bits_mask_is_mod(b, k);
    vstd::bits::lemma_u32_pow2_no_overflow(k);
    lemma_pow2_adds(k, (32 - k) as nat);
    lemma2_to64();
    let r = pow2((32 - k) as nat) as int;
    lemma_pow2_pos((32 - k) as nat);
    assert(p * r == 0x1_0000_0000);
    lemma_mod_mod(a as int * o as int, p, r);
    lemma_mod_mod(b as int * o as int, p, r);
    assert((a as int * o as int) % p == (b as int * o as int) % p);
    vstd::arithmetic::div_mod::lemma_sub_mod_noop(a as int * o as int, b as int * o as int, p);
    assert(((a as int - b as int) * o as int) % p == 0) by (nonlinear_arith)
        requires
            ((a as int * o as int) - (b as int * o as int)) % p == ((a as int * o as int) % p - (b as int * o as int) % p) % p,
            (a as int * o as int) % p == (b as int * o as int) % p,
            p > 0,
    ;
    lemma_odd_factor_divides(a as int - b as int, o as int, k);
    vstd::arithmetic::div_mod::lemma_sub_mod_noop(a as int, b as int, p);
    assert((a as int) % p == (b as int) % p) by (nonlinear_arith)
        requires
            (a as int - b as int) % p == ((a as int) % p - (b as int) % p) % p,
            (a as int - b as int) % p == 0,
            0 <= (a as int) % p < p,
            0 <= (b as int) % p < p,
    ;
}

/// Adding a constant is injective on the low bits.
proof fn lemma_add_low_bits(a: u32, b: u32, d: u32, m: u32)
    by (bit_vector)
    requires
        m & ((m + 1) as u32) == 0,
        wrapping_add(a, d) & m == wrapping_add(b, d) & m,
    ensures
        a & m == b & m,
{
}

/// An xor with a right shift of at least one bit is injective on the low bits.
proof fn lemma_xorshift_low_bits(a: u32, b: u32, h: u32, m: u32)
    by (bit_vector)
    requires
        1 <= h < 32,
        m & ((m + 1) as u32) == 0,
        (a ^ ((a & m) >> h)) & m == (b ^ ((b & m) >> h)) & m,
    ensures
        a & m == b & m,
{
}


/// The mixer maps `[0, modulus)` into itself without collisions.
proof fn lemma_mix_injective(p: PermutationParams, i: u32, j: u32)
    requires
        p.wf(),
        i < p.modulus(),
        j < p.modulus(),
        p.mix(i) == p.mix(j),
    ensures
        i == j,
{
    let k = p.log2_modulus as nat;
    let m = p.mask();
    lemma_mask_facts(k, i);
    lemma_mask_facts(k, j);
    if k == 0 {
        lemma2_to64();
    } else {
        let xi = wrapping_mul(wrapping_add(i, p.displace_zero), p.odd1);
        let xj = wrapping_mul(wrapping_add(j, p.displace_zero), p.odd1);
        let yi = xi ^ ((xi & m) >> p.halfwidth());
        let yj = xj ^ ((xj & m) >> p.halfwidth());
        lemma_mul_odd_low_bits(yi, yj, p.odd2, k);
        lemma_xorshift_low_bits(xi, xj, p.halfwidth(), m);
        lemma_mul_odd_low_bits(
            wrapping_add(i, p.displace_zero),
            wrapping_add(j, p.displace_zero),
            p.odd1,
            k,
        );
        lemma_add_low_bits(i, j, p.displace_zero, m);
    }
}

/// The mixer stays inside `[0, modulus)`.
proof fn lemma_mix_range(p: PermutationParams, i: u32)
    requires
        p.wf(),
    ensures
        p.mix(i) < p.modulus(),
{
    let x = wrapping_mul(wrapping_add(i, p.displace_zero), p.odd1);
    let y = x ^ ((x & p.mask()) >> p.halfwidth());
    lemma_mask_facts(p.log2_modulus as nat, wrapping_mul(y, p.odd2));
}

/// Every value of `[0, modulus)` is the mixer's image of some input there.
proof fn lemma_mix_surjective(p: PermutationParams, v: u32)
    requires
        p.wf(),
        v < p.modulus(),
    ensures
        exists|i: u32| i < p.modulus() && #[trigger] p.mix(i) == v,
{
    let n = p.modulus() as int;
    lemma_mask_facts(p.log2_modulus as nat, v);
    let dom = set_int_range(0, n);
    let f = |i: int| p.mix(i as u32) as int;
    lemma_int_range(0, n);
    assert forall|a: int, b: int| dom.contains(a) && dom.contains(b) && #[trigger] f(a) == #[trigger] f(b)
        implies a == b by {
        lemma_mix_injective(p, a as u32, b as u32);
    }
    assert(injective_on(f, dom));
    let img = dom.map(f);
    lemma_map_size(dom, img, f);
    assert forall|w: int| img.contains(w) implies dom.contains(w) by {
        let a = choose|a: int| dom.contains(a) && f(a) == w;
        lemma_mix_range(p, a as u32);
    }
    lemma_subset_equality(img, dom);
    assert(dom.contains(v as int));
    let a = choose|a: int| dom.contains(a) && f(a) == v as int;
    assert(p.mix(a as u32) == v);
}

/// Rotation is a bijection of `[0, len)`.
proof fn lemma_rotate(p: PermutationParams, v: u32, w: u32)
    requires
        p.wf(),
        v < p.len,
        w < p.len,
    ensures
        p.rotate(v) < p.len,
        p.rotate(v) == p.rotate(w) ==> v == w,
        exists|u: u32| u < p.len && #[trigger] p.rotate(u) == v,
{
    let u: u32 = if v >= p.uniform_first {
        (v - p.uniform_first) as u32
    } else {
        (v + p.len - p.uniform_first) as u32
    };
    assert(p.rotate(u) == v);
}

/// `t` is the rotated image of one of the first `n` inputs whose image was kept.
spec fn kept_value(p: PermutationParams, n: nat, t: u32) -> bool {
    exists|i: u32| i < n && p.mix(i) < p.len && #[trigger] p.rotate(p.mix(i)) == t
}

/// What the first `n` inputs of the mixer contribute: values below `len`,
/// each from a distinct input, and every kept input's value.
proof fn lemma_prefix(p: PermutationParams, n: nat)
    requires
        p.wf(),
        n <= p.modulus(),
    ensures
        p.prefix(n).no_duplicates(),
        forall|k: int| 0 <= k < p.prefix(n).len() ==> #[trigger] p.prefix(n)[k] < p.len,
        forall|k: int| 0 <= k < p.prefix(n).len() ==> kept_value(p, n, #[trigger] p.prefix(n)[k]),
        forall|i: u32| i < n && p.mix(i) < p.len ==> p.prefix(n).contains(#[trigger] p.rotate(p.mix(i))),
    decreases n,
{
    if n > 0 {
        let m = (n - 1) as nat;
        lemma_mask_facts(p.log2_modulus as nat, 0);
        lemma_prefix(p, m);
        let s = p.prefix(m);
        let last = (n - 1) as u32;
        let v = p.mix(last);
        if v < p.len {
            let t = p.rotate(v);
            lemma_rotate(p, v, v);
            assert forall|k: int| 0 <= k < s.len() implies s[k] != t by {
                if s[k] == t {
                    assert(kept_value(p, m, s[k]));
                    let i = choose|i: u32| i < m && p.mix(i) < p.len && #[trigger] p.rotate(p.mix(i)) == s[k];
                    lemma_rotate(p, p.mix(i), v);
                    lemma_mix_injective(p, i, last);
                }
            }
            let s2 = s.push(t);
            assert(p.prefix(n) == s2);
            assert forall|k: int| 0 <= k < s2.len() implies kept_value(p, n, #[trigger] s2[k]) by {
                if k == s.len() {
                    assert(p.rotate(p.mix(last)) == s2[k]);
                } else {
                    assert(s2[k] == s[k]);
                    assert(kept_value(p, m, s[k]));
                }
            }
            assert forall|i: u32| i < n && p.mix(i) < p.len implies s2.contains(#[trigger] p.rotate(p.mix(i))) by {
                if i == last {
                    assert(s2[s.len() as int] == t);
                } else {
                    let k = choose|k: int| 0 <= k < s.len() && s[k] == p.rotate(p.mix(i));
                    assert(s2[k] == s[k]);
                }
            }
        }
    }
}

/// The visiting order holds every index of `[0, len)` exactly once, and
/// nothing else: it is a permutation of `[0, len)`.
pub proof fn lemma_order_is_permutation(p: PermutationParams)
    requires
        p.wf(),
    ensures
        p.order().len() == p.len,
        p.order().no_duplicates(),
        forall|v: u32| p.order().contains(v) <==> v < p.len,
{
    let o = p.order();
    lemma_prefix(p, p.modulus());
    assert forall|v: u32| o.contains(v) <==> v < p.len by {
        if v < p.len {
            lemma_rotate(p, v, v);
            let u = choose|u: u32| u < p.len && #[trigger] p.rotate(u) == v;
            lemma_mix_surjective(p, u);
            let i = choose|i: u32| i < p.modulus() && #[trigger] p.mix(i) == u;
            assert(o.contains(p.rotate(p.mix(i))));
        }
    }
    o.unique_seq_to_set();
    let below = Set::new(|v: u32| v < p.len);
    assert(o.to_set() =~= below);
    let r = set_int_range(0, p.len as int);
    let f = |i: int| i as u32;
    lemma_int_range(0, p.len as int);
    assert(injective_on(f, r));
    assert(r.map(f) =~= below) by {
        assert forall|v: u32| below.contains(v) implies r.map(f).contains(v) by {
            assert(r.contains(v as int) && f(v as int) == v);
        }
    }
    lemma_map_size(r, below, f);
}

/// The indices handed out after `n` inputs start the indices handed out after `m >= n`.
pub proof fn lemma_prefix_grows(p: PermutationParams, n: nat, m: nat)
    requires
        n <= m,
    ensures
        p.prefix(n).len() <= p.prefix(m).len(),
        p.prefix(m).take(p.prefix(n).len() as int) == p.prefix(n),
    decreases m - n,
{
    if n < m {
        lemma_prefix_grows(p, n, (m - 1) as nat);
        let a = p.prefix(n);
        let b = p.prefix((m - 1) as nat);
        assert(p.prefix(m).take(a.len() as int) =~= b.take(a.len() as int));
    } else {
        assert(p.prefix(m).take(p.prefix(n).len() as int) =~= p.prefix(n));
    }
}

/// A visiting order over `[0, len)`, produced one index at a time in constant space.
pub struct RandomPermutation {
    params: PermutationParams,
    modulus: u32,
    mask: u32,
    halfwidth: u32,
    next_input: u32,
}

impl RandomPermutation {
    /// The values that fix this order.
    pub closed spec fn params(&self) -> PermutationParams {
        self.params
    }

    /// How many of the mixer's inputs have been consumed; the indices handed
    /// out so far are `params().prefix(position())`.
    pub closed spec fn position(&self) -> nat {
        self.next_input as nat
    }

    pub closed spec fn wf(&self) -> bool {
        &&& self.params.wf()
        &&& self.modulus == self.params.modulus()
        &&& self.mask == self.params.mask()
        &&& self.halfwidth == self.params.halfwidth()
        &&& self.next_input <= self.modulus
    }

    /// A well-formed generator has well-formed parameters.
    pub proof fn lemma_params_wf(&self)
        requires
            self.wf(),
        ensures
            self.params().wf(),
            self.position() <= self.params().modulus(),
    {
    }

    /// The next index of the order, or `None` once all `len` have been handed out.
    pub fn next(&mut self) -> (r: Option<u32>)
        requires
            old(self).wf(),
        ensures
            final(self).wf(),
            final(self).params() == old(self).params(),
            match r {
                Some(v) => {
                    &&& old(self).position() < final(self).position()
                    &&& final(self).params().prefix(final(self).position()) == old(
                        self,
                    ).params().prefix(old(self).position()).push(v)
                },
                None => {
                    &&& final(self).position() == final(self).params().modulus()
                    &&& old(self).params().prefix(old(self).position()) == old(
                        self,
                    ).params().order()
                },
            },
    {
        proof {
            lemma_mask_facts(self.params.log2_modulus as nat, 0);
        }
        while self.next_input < self.modulus
            invariant
                self.wf(),
                self.params.modulus() <= 0x8000_0000,
                self.params == old(self).params,
                old(self).next_input <= self.next_input,
                self.params.prefix(self.next_input as nat) == self.params.prefix(
                    old(self).next_input as nat,
                ),
            decreases self.modulus - self.next_input,
        {
            let i = self.next_input;
            let mut x = i.wrapping_add(self.params.displace_zero);
            x = x.wrapping_mul(self.params.odd1);
            x = x ^ ((x & self.mask) >> self.halfwidth);
            x = x.wrapping_mul(self.params.odd2);
            let v = x & self.mask;
            self.next_input = i + 1;
            assert(v == self.params.mix(i));
            if v < self.params.len {
                let mut w = v + self.params.uniform_first;
                if w >= self.params.len {
                    w = w - self.params.len;
                }
                return Some(w);
            }
        }
        None
    }

    /// Hands out the rest of the order.
    pub fn into_vec(self) -> (r: Vec<u32>)
        requires
            self.wf(),
        ensures
            self.params().prefix(self.position()) + r@ == self.params().order(),
    {
        let mut it = self;
        let mut out: Vec<u32> = Vec::new();
        loop
            invariant
                it.wf(),
                it.params() == self.params(),
                self.params().prefix(self.position()) + out@ == it.params().prefix(it.position()),
            decreases it.params().modulus() - it.position(),
        {
            match it.next() {
                Some(v) => {
                    out.push(v);
                },
                None => {
                    return out;
                },
            }
        }
    }
}

/// A fresh visiting order over `[0, len)`, fixed by four random draws: an
/// additive offset, two multipliers (made odd), and a draw that picks the
/// first index uniformly.
pub fn random_permutation(len: u32, draws: [u32; 4]) -> (r: RandomPermutation)
    requires
        len <= 0x8000_0000,
    ensures
        r.wf(),
        r.position() == 0,
        r.params().wf(),
        r.params().len == len,
        r.params().displace_zero == draws[0],
        r.params().odd1 == draws[1] | 1,
        r.params().odd2 == draws[2] | 1,
        r.params().uniform_first == (draws[3] as int * len as int) / 0x1_0000_0000,
        r.params().modulus() >= len,
        r.params().log2_modulus == 0 || pow2((r.params().log2_modulus - 1) as nat) < len,
{
    let mut modulus: u32 = 1;
    let mut k: u32 = 0;
    proof {
        lemma2_to64();
    }
    while modulus < len
        invariant
            modulus == pow2(k as nat),
            k <= 31,
            len <= 0x8000_0000,
            k == 0 || pow2((k - 1) as nat) < len,
        decreases 31 - k,
    {
        proof {
            lemma_pow2_unfold((k + 1) as nat);
            lemma2_to64();
            if k == 31 {
                assert(false);
            }
        }
        modulus = modulus * 2;
        k = k + 1;
    }
    let mask = modulus - 1;
    let halfwidth = (k + 1) / 2;
    let d1 = draws[1];
    let d2 = draws[2];
    let d3 = draws[3];
    let odd1 = d1 | 1;
    let odd2 = d2 | 1;
    assert(odd1 % 2 == 1) by (bit_vector)
        requires
            odd1 == d1 | 1,
    ;
    assert(odd2 % 2 == 1) by (bit_vector)
        requires
            odd2 == d2 | 1,
    ;
    assert((d3 as int) * (len as int) <= 0xffff_ffff * 0x8000_0000) by (nonlinear_arith)
        requires
            d3 <= 0xffff_ffff,
            len <= 0x8000_0000,
    ;
    let wide = (d3 as u64) * (len as u64);
    let uniform_first = (wide >> 32) as u32;
    assert(wide >> 32 == wide / 0x1_0000_0000) by (bit_vector);
    assert(len > 0 ==> uniform_first < len) by (nonlinear_arith)
        requires
            uniform_first == wide / 0x1_0000_0000,
            wide == d3 as int * len as int,
            d3 < 0x1_0000_0000,
    ;
    assert(len == 0 ==> wide == 0) by (nonlinear_arith)
        requires
            wide == d3 as int * len as int,
    ;
    let params = PermutationParams {
        len,
        log2_modulus: k,
        displace_zero: draws[0],
        odd1,
        odd2,
        uniform_first,
    };
    RandomPermutation { params, modulus, mask, halfwidth, next_input: 0 }
}

} // verus!
