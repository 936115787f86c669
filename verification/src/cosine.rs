//! Tables of cosines, filled by a recurrence.
//!
//! `cos(f * (x + 1) + d) == 2 * cos(f) * cos(f * x + d) - cos(f * (x - 1) + d)`: two cosines
//! start a row of a table, and each further entry follows from the two before it.
use crate::arithmetic::{describes, ratio, Arithmetic, Model};
use vstd::prelude::*;

verus! {

/// The angle between two neighbouring samples, out of `len`, of the cosine that completes `c`
/// half turns over all of them.
pub open spec fn frequency<N>(m: Model<N>, c: int, len: int) -> N {
    m.times(m.over(m.pi, m.from_int(len)), m.from_int(c))
}

/// The cosine of `freq * (i + 1 / 2)`, as the recurrence computes it.
pub open spec fn cos_entry<N>(m: Model<N>, freq: N, i: int) -> N
    decreases i,
{
    let half = m.times(freq, m.ratio(1, 2));
    if i <= 0 {
        m.cos(half)
    } else if i == 1 {
        m.cos(m.plus(freq, half))
    } else {
        let twice_cos = m.times(m.from_int(2), m.cos(freq));
        m.minus(m.times(twice_cos, cos_entry(m, freq, i - 1)), cos_entry(m, freq, i - 2))
    }
}

/// The cosine with frequency `c` at the sample `i` of `len`.
pub open spec fn cosine<N>(m: Model<N>, len: int, c: int, i: int) -> N {
    cos_entry(m, frequency(m, c, len), i)
}

/// The cosine with frequency `c` at all `len` samples.
pub open spec fn cosines<N>(m: Model<N>, len: int, c: int) -> Seq<N> {
    Seq::new(len as nat, |i: int| cosine(m, len, c, i))
}

/// Whether `table` holds the cosines of the frequencies below `count` at `len` samples, a row
/// for each frequency.
pub open spec fn is_cos_table<N>(
    m: Model<N>,
    table: Seq<Vec<N>>,
    count: int,
    len: int,
) -> bool {
    forall|c: int| 0 <= c < count ==> (#[trigger] table[c])@ == cosines(m, len, c)
}

/// Whether `table` has `count` rows of `len` entries.
pub open spec fn has_shape<N>(table: Seq<Vec<N>>, count: int, len: int) -> bool {
    &&& table.len() == count
    &&& forall|c: int| 0 <= c < count ==> (#[trigger] table[c])@.len() == len
}

/// The cosines of `freq * (i + 1 / 2)` for `i` in `0..len`.
pub fn fill_cos_table<A: Arithmetic>(freq: A::Num, len: usize) -> (out: Vec<A::Num>)
    ensures
        out@.len() == len,
        forall|m: Model<A::Num>|
            #![trigger describes::<A>(m)]
            describes::<A>(m) ==> out@ == Seq::new(len as nat, |i: int| cos_entry(m, freq, i)),
{
    let mut out: Vec<A::Num> = Vec::new();
    if len == 0 {
        return out;
    }
    let one_half = ratio::<A>(1, 2);
    let half = A::times(freq, one_half);
    out.push(A::cos(half));
    if len == 1 {
        return out;
    }
    let next = A::plus(freq, half);
    out.push(A::cos(next));
    let cos_freq = A::cos(freq);
    let two = A::from_int(2);
    let twice_cos = A::times(two, cos_freq);
    let mut i: usize = 2;
    while i < len
        invariant
            2 <= i <= len,
            out@.len() == i,
            forall|m: Model<A::Num>| #[trigger]
                describes::<A>(m) ==> twice_cos == m.times(m.from_int(2), m.cos(freq)),
            forall|m: Model<A::Num>, j: int|
                #![trigger describes::<A>(m), out@[j]]
                describes::<A>(m) && 0 <= j < i ==> out@[j] == cos_entry(m, freq, j),
        decreases len - i,
    {
        let product = A::times(twice_cos, out[i - 1]);
        let entry = A::minus(product, out[i - 2]);
        out.push(entry);
        i += 1;
    }
    out
}

/// The cosines of the frequencies below `count` at `len` samples.
pub fn cos_tables<A: Arithmetic>(count: usize, len: usize) -> (out: Vec<Vec<A::Num>>)
    requires
        count <= u32::MAX,
        len <= u32::MAX,
    ensures
        has_shape(out@, count as int, len as int),
        forall|m: Model<A::Num>| #[trigger]
            describes::<A>(m) ==> is_cos_table(m, out@, count as int, len as int),
{
    let mut out: Vec<Vec<A::Num>> = Vec::new();
    let pi = A::pi();
    let samples = A::from_int(len as u32);
    let step = A::over(pi, samples);
    let mut c: usize = 0;
    while c < count
        invariant
            c <= count <= u32::MAX,
            len <= u32::MAX,
            has_shape(out@, c as int, len as int),
            forall|m: Model<A::Num>| #[trigger]
                describes::<A>(m) ==> step == m.over(m.pi, m.from_int(len as int)),
            forall|m: Model<A::Num>| #[trigger]
                describes::<A>(m) ==> is_cos_table(m, out@, c as int, len as int),
        decreases count - c,
    {
        let multiple = A::from_int(c as u32);
        let freq = A::times(step, multiple);
        let row = fill_cos_table::<A>(freq, len);
        assert forall|m: Model<A::Num>| #[trigger] describes::<A>(m) implies row@ == cosines(
            m,
            len as int,
            c as int,
        ) by {
            assert(row@ == Seq::new(len as nat, |i: int| cos_entry(m, freq, i)));
        }
        out.push(row);
        c += 1;
    }
    out
}

} // verus!
