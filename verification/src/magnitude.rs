use vstd::prelude::*;

verus! {

/// Bit pattern of the double nearest to one hundredth: the smallest spectral
/// magnitude that counts as a peak or as a dominant frequency.
pub const PEAK_FLOOR: u64 = 0x3F84_7AE1_47AE_147B;

/// Bit pattern of the double one: poles of at least this modulus are unstable.
pub const UNIT: u64 = 0x3FF0_0000_0000_0000;

/// Bit pattern of the double positive infinity.
pub const INFINITE: u64 = 0x7FF0_0000_0000_0000;

/// A magnitude is handed to this library as an order key.
///
/// For a non-negative double the key is `Some` of its bit pattern: on
/// non-negative doubles the bit patterns, read as unsigned integers, are
/// ordered exactly as the numbers are. A magnitude that is not a number is
/// `None`, which compares with nothing, as such a double does.
pub open spec fn exceeds(a: Option<u64>, b: Option<u64>) -> bool {
    match (a, b) {
        (Some(x), Some(y)) => x > y,
        _ => false,
    }
}

/// The key of a magnitude, with zero for one that is not a number.
pub open spec fn level(a: Option<u64>) -> u64 {
    match a {
        Some(x) => x,
        None => 0,
    }
}

/// `a > b` on two magnitudes given by their keys.
pub fn greater(a: Option<u64>, b: Option<u64>) -> (r: bool)
    ensures
        r == exceeds(a, b),
{
    match (a, b) {
        (Some(x), Some(y)) => x > y,
        _ => false,
    }
}

/// The largest key among the magnitudes and zero; magnitudes that are not
/// numbers are passed over.
pub open spec fn max_level(keys: Seq<Option<u64>>) -> u64
    decreases keys.len(),
{
    if keys.len() == 0 {
        0
    } else {
        let rest = max_level(keys.drop_last());
        if level(keys.last()) > rest {
            level(keys.last())
        } else {
            rest
        }
    }
}

/// The smallest key among the magnitudes and infinity; magnitudes that are
/// not numbers are passed over.
pub open spec fn min_key(keys: Seq<Option<u64>>) -> u64
    decreases keys.len(),
{
    if keys.len() == 0 {
        INFINITE
    } else {
        let rest = min_key(keys.drop_last());
        match keys.last() {
            Some(k) => if k < rest {
                k
            } else {
                rest
            },
            None => rest,
        }
    }
}

/// `max_level` bounds every level and is zero or one of them.
pub proof fn lemma_max_level_bounds(keys: Seq<Option<u64>>)
    ensures
        forall|i: int| 0 <= i < keys.len() ==> level(#[trigger] keys[i]) <= max_level(keys),
        max_level(keys) == 0 || exists|i: int| 0 <= i < keys.len() && level(#[trigger] keys[i]) == max_level(keys),
    decreases keys.len(),
{
    if keys.len() > 0 {
        let rest = keys.drop_last();
        lemma_max_level_bounds(rest);
        assert forall|i: int| 0 <= i < keys.len() implies level(#[trigger] keys[i]) <= max_level(keys) by {
            if i < keys.len() - 1 {
                assert(keys[i] == rest[i]);
            }
        }
        if max_level(keys) != 0 && max_level(keys) == max_level(rest) {
            let i = choose|i: int| 0 <= i < rest.len() && level(#[trigger] rest[i]) == max_level(rest);
            assert(keys[i] == rest[i]);
        }
    }
}

/// `min_key` lies below every key that is a number and is infinity or one of them.
pub proof fn lemma_min_key_bounds(keys: Seq<Option<u64>>)
    ensures
        forall|i: int| 0 <= i < keys.len() && (#[trigger] keys[i]) is Some ==> min_key(keys) <= keys[i]->0,
        min_key(keys) <= INFINITE,
        min_key(keys) == INFINITE || exists|i: int| 0 <= i < keys.len() && #[trigger] keys[i] == Some(min_key(keys)),
    decreases keys.len(),
{
    if keys.len() > 0 {
        let rest = keys.drop_last();
        lemma_min_key_bounds(rest);
        assert forall|i: int| 0 <= i < keys.len() && (#[trigger] keys[i]) is Some implies min_key(keys) <= keys[i]->0 by {
            if i < keys.len() - 1 {
                assert(keys[i] == rest[i]);
            }
        }
        if min_key(keys) != INFINITE && min_key(keys) == min_key(rest) {
            let i = choose|i: int| 0 <= i < rest.len() && #[trigger] rest[i] == Some(min_key(rest));
            assert(keys[i] == rest[i]);
        }
    }
}

/// The largest magnitude (as its key), starting from zero; magnitudes that
/// are not numbers are passed over.
pub fn largest(keys: &Vec<Option<u64>>) -> (r: u64)
    ensures
        r == max_level(keys@),
        forall|i: int| #![trigger keys@[i]] 0 <= i < keys.len() ==> (if keys@[i] is Some { keys@[i]->0 } else { 0u64 }) <= r,
        r == 0 || exists|i: int| #![trigger keys@[i]] 0 <= i < keys.len() && keys@[i] == Some(r),
{
    let mut best: u64 = 0;
    let mut i: usize = 0;
    while i < keys.len()
        invariant
            i <= keys.len(),
            best == max_level(keys@.subrange(0, i as int)),
        decreases keys.len() - i,
    {
        proof {
            let next = keys@.subrange(0, i + 1);
            assert(next.drop_last() =~= keys@.subrange(0, i as int));
            assert(next.last() == keys@[i as int]);
        }
        if let Some(k) = keys[i] {
            if k > best {
                best = k;
            }
        }
        i = i + 1;
    }
    proof {
        assert(keys@.subrange(0, keys.len() as int) =~= keys@);
        lemma_max_level_bounds(keys@);
        lemma_min_key_bounds(keys@);
        if best != 0 && best != INFINITE {
            if best == max_level(keys@) {
                let i = choose|i: int| 0 <= i < keys.len() && level(#[trigger] keys@[i]) == max_level(keys@);
                assert(keys@[i] == Some(best));
            }
        }
    }
    best
}

/// The smallest magnitude (as its key), starting from infinity; magnitudes
/// that are not numbers are passed over.
pub fn smallest(keys: &Vec<Option<u64>>) -> (r: u64)
    ensures
        r == min_key(keys@),
        forall|i: int| #![trigger keys@[i]] 0 <= i < keys.len() && keys@[i] is Some ==> r <= keys@[i]->0,
        r <= 0x7FF0_0000_0000_0000u64,
        r == 0x7FF0_0000_0000_0000u64 || exists|i: int| #![trigger keys@[i]] 0 <= i < keys.len() && keys@[i] == Some(r),
{
    let mut best: u64 = INFINITE;
    let mut i: usize = 0;
    while i < keys.len()
        invariant
            i <= keys.len(),
            best == min_key(keys@.subrange(0, i as int)),
        decreases keys.len() - i,
    {
        proof {
            let next = keys@.subrange(0, i + 1);
            assert(next.drop_last() =~= keys@.subrange(0, i as int));
            assert(next.last() == keys@[i as int]);
        }
        if let Some(k) = keys[i] {
            if k < best {
                best = k;
            }
        }
        i = i + 1;
    }
    proof {
        assert(keys@.subrange(0, keys.len() as int) =~= keys@);
        lemma_max_level_bounds(keys@);
        lemma_min_key_bounds(keys@);
        if best != 0 && best != INFINITE {
            if best == max_level(keys@) {
                let i = choose|i: int| 0 <= i < keys.len() && level(#[trigger] keys@[i]) == max_level(keys@);
                assert(keys@[i] == Some(best));
            }
        }
    }
    best
}

} // verus!
