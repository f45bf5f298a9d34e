use vstd::prelude::*;

verus! {

/// The first `k` values, each repeated as often as its multiplicity says.
pub open spec fn repeated<T>(values: Seq<T>, multiplicities: Seq<usize>, k: int) -> Seq<T>
    decreases k,
{
    if k <= 0 {
        Seq::empty()
    } else {
        repeated(values, multiplicities, k - 1) + Seq::new(
            multiplicities[k - 1] as nat,
            |j: int| values[k - 1],
        )
    }
}

/// Knot values laid out with their multiplicities: `values[i]` appears
/// `multiplicities[i]` times, in order. Pairs beyond the shorter list are ignored.
pub fn knots_from_multiplicities<T: Copy>(values: &Vec<T>, multiplicities: &Vec<usize>) -> (r: Vec<
    T,
>)
    ensures
        r@ == repeated(
            values@,
            multiplicities@,
            if values@.len() < multiplicities@.len() {
                values@.len() as int
            } else {
                multiplicities@.len() as int
            },
        ),
{
    let n = if values.len() < multiplicities.len() {
        values.len()
    } else {
        multiplicities.len()
    };
    let mut knots: Vec<T> = Vec::new();
    let mut k: usize = 0;
    while k < n
        invariant
            n <= values@.len(),
            n <= multiplicities@.len(),
            k <= n,
            knots@ == repeated(values@, multiplicities@, k as int),
        decreases n - k,
    {
        let value = values[k];
        let m = multiplicities[k];
        let ghost head = knots@;
        let mut j: usize = 0;
        while j < m
            invariant
                j <= m,
                knots@ == head + Seq::new(j as nat, |t: int| value),
            decreases m - j,
        {
            knots.push(value);
            proof {
                assert(head + Seq::new((j + 1) as nat, |t: int| value) =~= (head + Seq::new(
                    j as nat,
                    |t: int| value,
                )).push(value));
            }
            j = j + 1;
        }
        proof {
            assert(Seq::new(m as nat, |t: int| value) =~= Seq::new(
                multiplicities@[k as int] as nat,
                |t: int| values@[k as int],
            ));
        }
        k = k + 1;
    }
    knots
}

} // verus!
