use vstd::arithmetic::power::*;
use vstd::prelude::*;

verus! {

/// Largest `e` with `q^e <= m`, and zero when `m < q`; zero for a base below 2.
pub open spec fn floor_log(q: int, m: int) -> nat
    decreases m
    via floor_log_decreases
{
    if q < 2 || m < q {
        0
    } else {
        1 + floor_log(q, m / q)
    }
}

#[via_fn]
proof fn floor_log_decreases(q: int, m: int) {
    if !(q < 2 || m < q) {
        assert(m / q < m) by (nonlinear_arith)
            requires
                q >= 2,
                m >= q,
        ;
    }
}

/// A progression with two seed terms `u(0)`, `u(1)` followed by a geometric
/// run: `u(n) = (u(0) + u(1)) * q^(n - 2)` for `n >= 2`.
#[derive(Debug, Clone, Copy)]
pub struct Series {
    pub u_0: u32,
    pub u_1: u32,
    pub q: u32,
}

impl Series {
    /// The term of rank `n`, as a mathematical integer.
    pub open spec fn term(self, n: nat) -> int {
        if n == 0 {
            self.u_0 as int
        } else if n == 1 {
            self.u_1 as int
        } else {
            (self.u_0 + self.u_1) * pow(self.q as int, (n - 2) as nat)
        }
    }

    /// The term of rank `n` and the values computed on the way fit in a `u32`.
    pub open spec fn term_fits(self, n: nat) -> bool {
        n < 2 || (self.u_0 + self.u_1 <= u32::MAX && pow(self.q as int, (n - 2) as nat)
            <= u32::MAX && self.term(n) <= u32::MAX)
    }

    /// The rank that `rank_of` assigns to a value: exact on the two seeds,
    /// and `floor(log_q(v / (u_0 + u_1))) + 2` above them.
    pub open spec fn rank_of(self, v: u32) -> nat {
        if v == self.u_0 {
            0
        } else if v == self.u_1 {
            1
        } else {
            floor_log(self.q as int, v as int / (self.u_0 + self.u_1)) + 2
        }
    }

    /// A series whose seeds are distinct and positive and whose ratio is at
    /// least 2: every term then has a rank of its own.
    pub open spec fn is_strict(self) -> bool {
        self.u_0 != self.u_1 && self.u_0 > 0 && self.u_1 > 0 && self.q >= 2
    }

    /// The series of the game: seeds 1 and 2, then 3, 6, 12, ...
    pub open spec fn classic() -> Series {
        Series { u_0: 1, u_1: 2, q: 2 }
    }

    pub fn new(u_0: u32, u_1: u32, q: u32) -> (s: Series)
        ensures
            s.u_0 == u_0,
            s.u_1 == u_1,
            s.q == q,
    {
        Series { u_0, u_1, q }
    }

    /// Closed form of the term of rank `n`.
    pub fn u_n(self, n: u32) -> (r: u32)
        requires
            self.term_fits(n as nat),
        ensures
            r == self.term(n as nat),
    {
        if n == 0 {
            self.u_0
        } else if n == 1 {
            self.u_1
        } else {
            let e = n - 2;
            let p = pow_u32(self.q, e);
            proof {
                lemma_pow_nonneg(self.q as int, e as nat);
                lemma_mul_le_right(self.u_0 + self.u_1, p as int);
            }
            (self.u_0 + self.u_1) * p
        }
    }

    /// Rank of a value that is a term of the series.
    pub fn n(self, u_n: u32) -> (r: u32)
        requires
            self.q != 1,
            u_n != self.u_0 && u_n != self.u_1 ==> 0 < self.u_0 + self.u_1 <= u32::MAX,
        ensures
            r == self.rank_of(u_n),
    {
        if u_n == self.u_0 {
            0
        } else if u_n == self.u_1 {
            1
        } else {
            let m = u_n / (self.u_0 + self.u_1);
            let e = floor_log_u32(self.q, m);
            proof {
                if self.q >= 2 {
                    lemma_floor_log_le(self.q as int, m as int);
                }
            }
            e + 2
        }
    }

    /// The term of rank `n`, computed from the term before it.
    pub fn u_n_rec(self, n: u32) -> (r: u32)
        requires
            self.term_fits(n as nat),
        ensures
            r == self.term(n as nat),
    {
        if n == 0 {
            self.u_0
        } else if n == 1 {
            self.u_1
        } else if n == 2 {
            proof {
                reveal(pow);
            }
            self.u_0 + self.u_1
        } else {
            proof {
                self.lemma_fits_below(n as nat);
                self.lemma_term_step(n as nat);
            }
            let prev = self.u_n(n - 1);
            prev * self.q
        }
    }

    proof fn lemma_term_step(self, n: nat)
        requires
            n >= 3,
        ensures
            self.term(n) == self.term((n - 1) as nat) * self.q,
    {
        reveal(pow);
        let e = (n - 3) as nat;
        assert(pow(self.q as int, (e + 1) as nat) == self.q * pow(self.q as int, e));
        assert((self.u_0 + self.u_1) * (self.q * pow(self.q as int, e)) == ((self.u_0 + self.u_1)
            * pow(self.q as int, e)) * self.q) by (nonlinear_arith);
    }

    proof fn lemma_fits_below(self, n: nat)
        requires
            n >= 3,
            self.term_fits(n),
        ensures
            self.term_fits((n - 1) as nat),
    {
        reveal(pow);
        let e = (n - 3) as nat;
        let s = (self.u_0 + self.u_1) as int;
        let p = pow(self.q as int, e);
        lemma_pow_nonneg(self.q as int, e);
        assert(pow(self.q as int, (e + 1) as nat) == self.q * p);
        if self.q == 0 {
            if e == 0 {
                assert(p == 1);
            } else {
                assert(p == 0 * pow(0, (e - 1) as nat));
            }
            assert(p <= 1);
            assert(s * p <= s) by (nonlinear_arith)
                requires
                    0 <= p <= 1,
                    0 <= s,
            ;
        } else {
            assert(p <= self.q * p) by (nonlinear_arith)
                requires
                    self.q >= 1,
                    p >= 0,
            ;
            assert(s * p <= s * (self.q * p)) by (nonlinear_arith)
                requires
                    p <= self.q * p,
                    s >= 0,
            ;
        }
    }
}

impl Series {
    /// On a strict series, the rank of a term is the rank it was computed
    /// from: `n(u_n(k)) == k`.
    pub proof fn lemma_rank_of_term(self, k: nat)
        requires
            self.is_strict(),
            self.term_fits(k),
        ensures
            self.rank_of(self.term(k) as u32) == k,
    {
        if k >= 2 {
            let e = (k - 2) as nat;
            let s = (self.u_0 + self.u_1) as int;
            let p = pow(self.q as int, e);
            lemma_pow_positive(self.q as int, e);
            lemma_mul_le_right(s, p);
            assert((s * p) / s == p) by (nonlinear_arith)
                requires
                    s > 0,
            ;
            assert((self.term(k) as u32) as int == s * p);
            lemma_floor_log_pow(self.q as int, e);
        }
    }

    /// A term whose rank does not exceed the rank of `v` is at most `v`, or at
    /// most the first merged term when `v` lies below it.
    pub proof fn lemma_term_le_by_rank(self, k: nat, v: u32)
        requires
            self.q >= 2,
            self.u_0 + self.u_1 > 0,
            2 <= k <= self.rank_of(v),
            v != self.u_0,
            v != self.u_1,
        ensures
            self.term(k) <= if v >= self.u_0 + self.u_1 { v as int } else { self.u_0 + self.u_1 },
    {
        let s = (self.u_0 + self.u_1) as int;
        let m = v as int / s;
        let e = (k - 2) as nat;
        let f = floor_log(self.q as int, m);
        assert(e <= f);
        if v >= s {
            assert(m >= 1) by (nonlinear_arith)
                requires
                    v >= s,
                    s > 0,
                    m == v as int / s,
            ;
            lemma_pow_floor_log_le(self.q as int, m);
            lemma_pow_increases(self.q as nat, e, f);
            let p = pow(self.q as int, e);
            assert(s * p <= s * m) by (nonlinear_arith)
                requires
                    p <= m,
                    s > 0,
            ;
            assert(s * m <= v) by (nonlinear_arith)
                requires
                    s > 0,
                    m == v as int / s,
                    v >= 0,
            ;
        } else {
            assert(m == 0) by (nonlinear_arith)
                requires
                    0 <= v < s,
                    m == v as int / s,
            ;
            reveal(pow);
        }
    }
}

/// `floor_log` inverts `pow` on exact powers.
proof fn lemma_floor_log_pow(q: int, e: nat)
    requires
        q >= 2,
    ensures
        floor_log(q, pow(q, e)) == e,
    decreases e,
{
    reveal(pow);
    if e > 0 {
        let p = pow(q, (e - 1) as nat);
        lemma_pow_positive(q, (e - 1) as nat);
        assert(q * p >= q) by (nonlinear_arith)
            requires
                p >= 1,
                q >= 2,
        ;
        assert((q * p) / q == p) by (nonlinear_arith)
            requires
                q >= 2,
        ;
        lemma_floor_log_pow(q, (e - 1) as nat);
    }
}

/// `q^floor_log(q, m) <= m` for positive `m`.
proof fn lemma_pow_floor_log_le(q: int, m: int)
    requires
        q >= 2,
        m >= 1,
    ensures
        pow(q, floor_log(q, m)) <= m,
    decreases m,
{
    reveal(pow);
    if m >= q {
        let d = m / q;
        assert(1 <= d < m && q * d <= m) by (nonlinear_arith)
            requires
                q >= 2,
                m >= q,
                d == m / q,
        ;
        lemma_pow_floor_log_le(q, d);
        let p = pow(q, floor_log(q, d));
        assert(q * p <= q * d) by (nonlinear_arith)
            requires
                p <= d,
                q >= 2,
        ;
    }
}

/// `pow` of a non-negative base is non-negative.
pub proof fn lemma_pow_nonneg(b: int, e: nat)
    requires
        b >= 0,
    ensures
        pow(b, e) >= 0,
    decreases e,
{
    reveal(pow);
    if e > 0 {
        lemma_pow_nonneg(b, (e - 1) as nat);
        assert(b * pow(b, (e - 1) as nat) >= 0) by (nonlinear_arith)
            requires
                b >= 0,
                pow(b, (e - 1) as nat) >= 0,
        ;
    }
}

proof fn lemma_mul_le_right(s: int, p: int)
    requires
        s >= 0,
        p >= 0,
    ensures
        p >= 1 ==> s <= s * p,
        s >= 1 ==> p <= s * p,
{
    assert(p >= 1 ==> s <= s * p) by (nonlinear_arith)
        requires
            s >= 0,
            p >= 0,
    ;
    assert(s >= 1 ==> p <= s * p) by (nonlinear_arith)
        requires
            s >= 0,
            p >= 0,
    ;
}

/// `b^e` in a `u32`.
fn pow_u32(b: u32, e: u32) -> (r: u32)
    requires
        pow(b as int, e as nat) <= u32::MAX,
    ensures
        r == pow(b as int, e as nat),
{
    let mut r: u32 = 1;
    let mut i: u32 = 0;
    proof {
        reveal(pow);
    }
    while i < e
        invariant
            i <= e,
            r == pow(b as int, i as nat),
            pow(b as int, e as nat) <= u32::MAX,
        decreases e - i,
    {
        proof {
            reveal(pow);
            lemma_pow_prefix_le(b as int, (i + 1) as nat, e as nat);
            assert(pow(b as int, (i + 1) as nat) == b * pow(b as int, i as nat));
        }
        r = r * b;
        i = i + 1;
    }
    r
}

/// Powers of a non-negative base up to `e` are bounded by the larger of
/// `b^e` and 1.
proof fn lemma_pow_prefix_le(b: int, i: nat, e: nat)
    requires
        b >= 0,
        i <= e,
    ensures
        pow(b, i) <= if pow(b, e) > 1 { pow(b, e) } else { 1 },
{
    if b >= 1 {
        lemma_pow_increases(b as nat, i, e);
        lemma_pow_positive(b, e);
    } else {
        reveal(pow);
        if i > 0 {
            assert(pow(b, i) == 0 * pow(b, (i - 1) as nat));
        }
        lemma_pow_nonneg(b, e);
    }
}

proof fn lemma_floor_log_le(q: int, m: int)
    requires
        m >= 0,
    ensures
        floor_log(q, m) <= m / 2,
    decreases m,
{
    if q >= 2 && m >= q {
        assert(m / q <= m / 2) by (nonlinear_arith)
            requires
                q >= 2,
                m >= 0,
        ;
        assert(m / q >= 0) by (nonlinear_arith)
            requires
                q >= 2,
                m >= 0,
        ;
        lemma_floor_log_le(q, m / q);
    }
}

/// `floor_log(q, m)` in a `u32`.
fn floor_log_u32(q: u32, m: u32) -> (r: u32)
    requires
        q != 1,
    ensures
        r == floor_log(q as int, m as int),
{
    if q < 2 {
        return 0;
    }
    proof {
        lemma_floor_log_le(q as int, m as int);
    }
    let mut e: u32 = 0;
    let mut rest: u32 = m;
    while rest >= q
        invariant
            q >= 2,
            e + floor_log(q as int, rest as int) == floor_log(q as int, m as int),
            floor_log(q as int, m as int) <= m / 2,
        decreases rest,
    {
        rest = rest / q;
        e = e + 1;
    }
    e
}

} // verus!
