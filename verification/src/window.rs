use vstd::prelude::*;

verus! {

/// Fixed-point unit weight: a window coefficient of `WINDOW_ONE` scales a
/// sample by exactly one. A Hann coefficient 0.5 * (1 - cos(2*pi*i/n)) is
/// stored as the nearest integer multiple of 1/WINDOW_ONE.
pub const WINDOW_ONE: i64 = 32768;

/// Every coefficient lies in [0, WINDOW_ONE], as Hann coefficients do.
pub open spec fn window_in_range(w: Seq<int>) -> bool {
    forall|i: int| 0 <= i < w.len() ==> 0 <= #[trigger] w[i] <= WINDOW_ONE
}

/// Coefficients half a window apart sum to exactly one: the overlap-add
/// identity of the Hann window under 50% overlap. It holds exactly in
/// fixed point because cos(x + pi) == -cos(x).
pub open spec fn window_halves_complementary(w: Seq<int>, half: int) -> bool {
    &&& w.len() == 2 * half
    &&& forall|i: int| 0 <= i < half ==> #[trigger] w[i] + w[i + half] == WINDOW_ONE
}

/// Runtime check that a coefficient table is a well-formed 50%-overlap
/// window: in range, of even length, with complementary halves.
pub fn check_window(w: &Vec<i64>) -> (r: bool)
    ensures
        r == (window_in_range(w@.map_values(|x: i64| x as int))
            && window_halves_complementary(
            w@.map_values(|x: i64| x as int),
            w@.len() as int / 2,
        )),
{
    let ghost wi = w@.map_values(|x: i64| x as int);
    let n: usize = w.len();
    if n % 2 != 0 {
        return false;
    }
    let half: usize = n / 2;
    let mut i: usize = 0;
    while i < half
        invariant
            0 <= i <= half,
            n == w@.len(),
            n == 2 * half,
            wi == w@.map_values(|x: i64| x as int),
            forall|j: int|
                0 <= j < i ==> {
                    &&& 0 <= #[trigger] wi[j] <= WINDOW_ONE
                    &&& 0 <= wi[j + half] <= WINDOW_ONE
                    &&& wi[j] + wi[j + half] == WINDOW_ONE
                },
        decreases half - i,
    {
        let a = w[i];
        let b = w[i + half];
        if !(0 <= a && a <= WINDOW_ONE && 0 <= b && b <= WINDOW_ONE && a + b == WINDOW_ONE) {
            proof {
                assert(wi[i as int] == a as int && wi[i + half] == b as int);
            }
            return false;
        }
        i = i + 1;
    }
    proof {
        assert forall|idx: int| 0 <= idx < wi.len() implies 0 <= #[trigger] wi[idx]
            <= WINDOW_ONE by {
            if idx < half {
                assert(0 <= wi[idx] <= WINDOW_ONE);
            } else {
                let j = idx - half;
                assert(0 <= wi[j] <= WINDOW_ONE);
                assert(wi[idx] == wi[j + half]);
            }
        }
        assert(window_halves_complementary(wi, half as int));
    }
    true
}

} // verus!
