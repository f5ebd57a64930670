use vstd::prelude::*;
use crate::series::LaurentSeries;

verus! {

/// Kind of an isolated singularity.
#[derive(Debug, Clone, Copy, PartialEq, Eq, Structural)]
pub enum SingularityType {
    Removable,
    SimplePole,
    PoleOfOrder(u32),
    EssentialSingularity,
    BranchPoint,
}

/// An isolated singularity with its kind, residue and pole order, over the
/// scalar type `C` of its point and residue.
pub struct Singularity<C> {
    pub point: C,
    pub singularity_type: SingularityType,
    pub residue: C,
    pub order: Option<u32>,
}

/// Residue computation and singularity classification.
pub struct Residue;

/// The residue theorem: ∮_C f(z) dz = 2πi Σ Res(f, a_k) over the singularities
/// a_k inside C.
pub struct ResidueTheorem;

/// Highest order of a pole that classification tells apart from an essential
/// singularity.
pub const MAX_POLE_ORDER: u32 = 5;

/// The kind of singularity that a pole order gives: no pole means removable,
/// order one a simple pole, orders up to `MAX_POLE_ORDER` a pole of that
/// order, anything beyond an essential singularity.
pub open spec fn kind_of_order(order: Option<u32>) -> SingularityType {
    match order {
        None => SingularityType::Removable,
        Some(m) => if m == 1 {
            SingularityType::SimplePole
        } else if m <= MAX_POLE_ORDER {
            SingularityType::PoleOfOrder(m)
        } else {
            SingularityType::EssentialSingularity
        },
    }
}

/// The kind of a singularity by its pole order, case by case: none is
/// removable, one is a simple pole, two to five a pole of that order, more an
/// essential singularity (and the order zero, which no expansion gives, a pole
/// of order zero).
pub proof fn lemma_kind_of_order_cases(order: Option<u32>)
    ensures
        order is None ==> kind_of_order(order) == SingularityType::Removable,
        order == Some(1u32) ==> kind_of_order(order) == SingularityType::SimplePole,
        order == Some(0u32) ==> kind_of_order(order) == SingularityType::PoleOfOrder(0),
        match order {
            Some(m) => (2 <= m <= 5 ==> kind_of_order(order) == SingularityType::PoleOfOrder(m))
                && (m > 5 ==> kind_of_order(order) == SingularityType::EssentialSingularity),
            None => true,
        },
{
}

/// The pole order read from the coefficients from index `i` on: the first
/// significant coefficient of negative order `n` gives the order `-n`.
pub open spec fn pole_order_from(n_min: int, significant: Seq<bool>, i: int) -> Option<u32>
    decreases significant.len() - i,
{
    if i < 0 || i >= significant.len() {
        None
    } else if n_min + i < 0 && significant[i] {
        Some((-(n_min + i)) as u32)
    } else {
        pole_order_from(n_min, significant, i + 1)
    }
}

/// The pole order of an expansion whose lowest order is `n_min`, where
/// `significant[i]` tells whether the coefficient of order `n_min + i` is
/// distinguishable from zero.
pub open spec fn spec_pole_order(n_min: int, significant: Seq<bool>) -> Option<u32> {
    pole_order_from(n_min, significant, 0)
}

/// The orders `n_min .. n_min + len` fit in an `i32` and can be negated.
pub open spec fn orders_negatable(n_min: int, len: int) -> bool {
    &&& i32::MIN < n_min
    &&& len <= i32::MAX
    &&& n_min + len <= i32::MAX + 1
}

/// The pole order is `m` exactly when the coefficient of order `-m` is the
/// lowest significant one of negative order; there is none exactly when no
/// coefficient of negative order is significant.
pub proof fn lemma_pole_order_characterized(n_min: int, significant: Seq<bool>, i: int)
    requires
        0 <= i <= significant.len(),
        n_min + significant.len() <= i32::MAX + 1,
        i32::MIN < n_min,
    ensures
        pole_order_from(n_min, significant, i) is None <==> forall|j: int|
            i <= j < significant.len() && n_min + j < 0 ==> !(#[trigger] significant[j]),
        pole_order_from(n_min, significant, i) matches Some(m) ==> {
            let j = -m - n_min;
            &&& 0 < m
            &&& i <= j < significant.len()
            &&& significant[j]
            &&& forall|k: int| i <= k < j ==> !(#[trigger] significant[k])
        },
    decreases significant.len() - i,
{
    if i < significant.len() {
        lemma_pole_order_characterized(n_min, significant, i + 1);
    }
}

/// The pole order of an expansion whose lowest order is `n_min`: `-n` for the
/// lowest negative order `n` whose coefficient is significant, none if no
/// coefficient of negative order is.
pub fn pole_order(n_min: i32, significant: &Vec<bool>) -> (r: Option<u32>)
    requires
        orders_negatable(n_min as int, significant.len() as int),
    ensures
        r == spec_pole_order(n_min as int, significant@),
        r is None <==> forall|j: int|
            0 <= j < significant.len() && n_min + j < 0 ==> !(#[trigger] significant@[j]),
        r matches Some(m) ==> {
            let j = -m - n_min;
            &&& 0 < m
            &&& 0 <= j < significant.len()
            &&& significant@[j]
            &&& forall|k: int| 0 <= k < j ==> !(#[trigger] significant@[k])
        },
{
    proof {
        lemma_pole_order_characterized(n_min as int, significant@, 0);
    }
    let n = significant.len();
    let mut i: usize = 0;
    while i < n
        invariant
            n == significant.len(),
            orders_negatable(n_min as int, n as int),
            i <= n,
            spec_pole_order(n_min as int, significant@) == pole_order_from(n_min as int, significant@, i as int),
        decreases n - i,
    {
        let order = n_min + i as i32;
        if order < 0 && significant[i] {
            proof {
                lemma_pole_order_characterized(n_min as int, significant@, 0);
            }
            return Some((-order) as u32);
        }
        i = i + 1;
    }
    None
}

impl SingularityType {
    /// The kind of singularity that a pole order gives.
    pub fn from_pole_order(order: Option<u32>) -> (t: SingularityType)
        ensures
            t == kind_of_order(order),
            order is None ==> t == SingularityType::Removable,
            order == Some(1u32) ==> t == SingularityType::SimplePole,
            order == Some(0u32) ==> t == SingularityType::PoleOfOrder(0),
            match order {
                Some(m) => (2 <= m <= 5 ==> t == SingularityType::PoleOfOrder(m))
                    && (m > 5 ==> t == SingularityType::EssentialSingularity),
                None => true,
            },
    {
        proof {
            lemma_kind_of_order_cases(order);
        }
        match order {
            None => SingularityType::Removable,
            Some(m) => if m == 1 {
                SingularityType::SimplePole
            } else if m <= MAX_POLE_ORDER {
                SingularityType::PoleOfOrder(m)
            } else {
                SingularityType::EssentialSingularity
            },
        }
    }
}

impl Residue {
    /// Classifies the singularity at `point` from a Laurent expansion around
    /// it and the significance of each of its coefficients: its pole order,
    /// kind, and residue a_{-1} (`zero` where the expansion holds no such
    /// coefficient).
    pub fn classify_expansion<C: Copy, R>(
        point: C,
        expansion: &LaurentSeries<C, R>,
        significant: &Vec<bool>,
        zero: C,
    ) -> (s: Singularity<C>)
        requires
            significant.len() == expansion.coefficients.len(),
            orders_negatable(expansion.n_min as int, significant.len() as int),
        ensures
            s.point == point,
            s.order == spec_pole_order(expansion.n_min as int, significant@),
            s.singularity_type == kind_of_order(s.order),
            s.residue == (match expansion.spec_coefficient(-1) {
                Some(a) => a,
                None => zero,
            }),
            0 <= -1 - expansion.n_min < expansion.coefficients.len() ==> s.residue
                == expansion.coefficients@[-1 - expansion.n_min],
            !(0 <= -1 - expansion.n_min < expansion.coefficients.len()) ==> s.residue == zero,
            s.order is None <==> forall|j: int|
                0 <= j < significant.len() && expansion.n_min + j < 0 ==> !(#[trigger] significant@[j]),
            s.order matches Some(m) ==> {
                let j = -m - expansion.n_min;
                &&& 0 < m
                &&& 0 <= j < significant.len()
                &&& significant@[j]
                &&& forall|k: int| 0 <= k < j ==> !(#[trigger] significant@[k])
            },
            s.order is None ==> s.singularity_type == SingularityType::Removable,
            s.order == Some(1u32) ==> s.singularity_type == SingularityType::SimplePole,
            match s.order {
                Some(m) => (2 <= m <= 5 ==> s.singularity_type == SingularityType::PoleOfOrder(m))
                    && (m > 5 ==> s.singularity_type == SingularityType::EssentialSingularity),
                None => true,
            },
    {
        let order = pole_order(expansion.n_min, significant);
        let residue = match expansion.coefficient(-1) {
            Some(a) => a,
            None => zero,
        };
        Singularity {
            point,
            singularity_type: SingularityType::from_pole_order(order),
            residue,
            order,
        }
    }
}

} // verus!
