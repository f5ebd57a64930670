use vstd::prelude::*;

verus! {

/// A Laurent expansion f(z) = Σ a_n (z - c)^n around a center c, over the
/// scalar type `C` of its center and coefficients and the type `R` of its radii.
///
/// `coefficients[i]` is the coefficient of order `n_min + i`.
pub struct LaurentSeries<C, R> {
    /// Center of expansion.
    pub center: C,
    /// Coefficients from order `n_min` upward.
    pub coefficients: Vec<C>,
    /// Lowest order (negative for a principal part).
    pub n_min: i32,
    /// Highest order.
    pub n_max: i32,
    /// Inner radius of the annulus of convergence.
    pub inner_radius: R,
    /// Outer radius of the annulus of convergence.
    pub outer_radius: R,
}

impl<C: Copy, R> LaurentSeries<C, R> {
    /// The coefficient of order `n`, if the expansion holds one.
    pub open spec fn spec_coefficient(&self, n: int) -> Option<C> {
        let idx = n - self.n_min;
        if 0 <= idx < self.coefficients@.len() {
            Some(self.coefficients@[idx])
        } else {
            None
        }
    }

    /// The coefficient of order `n` sits at index `n - n_min`, for every order
    /// the expansion holds, negative or not; other orders have none.
    pub proof fn lemma_coefficient_at_offset(&self, n: int)
        ensures
            0 <= n - self.n_min < self.coefficients@.len() ==> self.spec_coefficient(n) == Some(
                self.coefficients@[n - self.n_min],
            ),
            !(0 <= n - self.n_min < self.coefficients@.len()) ==> self.spec_coefficient(n) is None,
    {
    }

    /// How many terms of negative order the expansion holds.
    pub open spec fn principal_len(&self) -> int {
        if self.n_min >= 0 {
            0
        } else if -self.n_min < self.coefficients@.len() {
            -self.n_min
        } else {
            self.coefficients@.len() as int
        }
    }

    /// Every index and every order that the expansion holds fits in an `i32`.
    pub open spec fn orders_fit(&self) -> bool {
        &&& self.coefficients@.len() <= i32::MAX
        &&& self.n_min + self.coefficients@.len() <= i32::MAX + 1
    }

    /// The coefficient a_n, or `None` where order `n` lies outside the expansion.
    pub fn coefficient(&self, n: i32) -> (r: Option<C>)
        requires
            i32::MIN <= n - self.n_min <= i32::MAX,
        ensures
            r == self.spec_coefficient(n as int),
            0 <= n - self.n_min < self.coefficients.len() ==> r == Some(self.coefficients@[n - self.n_min]),
            !(0 <= n - self.n_min < self.coefficients.len()) ==> r is None,
    {
        let idx = n - self.n_min;
        if idx >= 0 && (idx as usize) < self.coefficients.len() {
            Some(self.coefficients[idx as usize])
        } else {
            None
        }
    }

    /// The principal part: the terms of negative order, as (order, coefficient)
    /// in increasing order. It holds exactly the coefficients of negative
    /// order: each of its terms is the coefficient of its order, and every
    /// coefficient of negative order is one of its terms.
    pub fn principal_part(&self) -> (pp: Vec<(i32, C)>)
        requires
            self.orders_fit(),
        ensures
            pp.len() == self.principal_len(),
            pp.len() == (if self.n_min >= 0 {
                0
            } else if -self.n_min < self.coefficients.len() {
                -self.n_min
            } else {
                self.coefficients.len() as int
            }),
            forall|k: int|
                0 <= k < pp.len() ==> #[trigger] pp@[k] == (
                    (self.n_min + k) as i32,
                    self.coefficients@[k],
                ),
            forall|k: int|
                0 <= k < pp.len() ==> {
                    &&& (#[trigger] pp@[k]).0 < 0
                    &&& self.spec_coefficient(pp@[k].0 as int) == Some(pp@[k].1)
                },
            forall|n: int|
                n < 0 && (#[trigger] self.spec_coefficient(n)) is Some ==> pp@.contains(
                    (n as i32, self.spec_coefficient(n)->0),
                ),
    {
        let mut pp: Vec<(i32, C)> = Vec::new();
        let n = self.coefficients.len();
        let mut i: usize = 0;
        while i < n
            invariant
                n == self.coefficients.len(),
                self.orders_fit(),
                i <= n,
                pp.len() == (if self.principal_len() < i { self.principal_len() } else { i as int }),
                forall|k: int|
                    0 <= k < pp.len() ==> #[trigger] pp@[k] == (
                        (self.n_min + k) as i32,
                        self.coefficients@[k],
                    ),
            decreases n - i,
        {
            let order = self.n_min + i as i32;
            let ghost before = pp@;
            if order < 0 {
                pp.push((order, self.coefficients[i]));
                assert(pp@[i as int] == pp@[pp.len() - 1]);
            }
            assert forall|k: int| 0 <= k < pp.len() implies #[trigger] pp@[k] == (
                (self.n_min + k) as i32,
                self.coefficients@[k],
            ) by {
                if k < before.len() {
                    assert(pp@[k] == before[k]);
                }
            }
            i = i + 1;
        }
        proof {
            lemma_principal_part_is_negative_orders(self, pp@);
        }
        pp
    }
}

/// A sequence of terms laid out as the principal part is holds exactly the
/// coefficients of negative order.
proof fn lemma_principal_part_is_negative_orders<C: Copy, R>(
    series: &LaurentSeries<C, R>,
    pp: Seq<(i32, C)>,
)
    requires
        series.orders_fit(),
        pp.len() == series.principal_len(),
        forall|k: int|
            0 <= k < pp.len() ==> #[trigger] pp[k] == (
                (series.n_min + k) as i32,
                series.coefficients@[k],
            ),
    ensures
        forall|k: int|
            0 <= k < pp.len() ==> {
                &&& (#[trigger] pp[k]).0 < 0
                &&& series.spec_coefficient(pp[k].0 as int) == Some(pp[k].1)
            },
        forall|n: int|
            n < 0 && (#[trigger] series.spec_coefficient(n)) is Some ==> pp.contains(
                (n as i32, series.spec_coefficient(n)->0),
            ),
{
    assert forall|n: int|
        n < 0 && (#[trigger] series.spec_coefficient(n)) is Some implies pp.contains(
            (n as i32, series.spec_coefficient(n)->0),
        ) by {
        let k = n - series.n_min;
        assert(pp[k] == ((series.n_min + k) as i32, series.coefficients@[k]));
    }
}

} // verus!
