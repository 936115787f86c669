//! The inverse transform: from the coefficients of a channel to its samples.
//!
//! The coefficients of each vertical frequency are first combined with the horizontal cosines
//! into one row of numbers. A row of samples is then a sum of these rows, each times the
//! vertical cosine at that row.
use crate::arithmetic::{describes, ratio, Arithmetic, Model};
use crate::cosine::{cosine, cosines, has_shape, is_cos_table};
use crate::geometry::triangle;
use vstd::prelude::*;

verus! {

/// The coefficient that the nibble `bits` stands for in a channel with the scale `scale`.
pub open spec fn dequantized<N>(m: Model<N>, bits: u8, scale: N) -> N {
    m.times(m.minus(m.over(m.from_int(bits as int), m.ratio(15, 2)), m.from_int(1)), scale)
}

/// The coefficients that `nibbles` stand for in a channel with the scale `scale`.
pub open spec fn dequantized_ac<N>(m: Model<N>, nibbles: Seq<u8>, scale: N) -> Seq<N> {
    Seq::new(nibbles.len(), |i: int| dequantized(m, nibbles[i], scale))
}

/// The part of the column `x` of `w` in the row of the vertical frequency `cy`: the sum, over
/// those of the first `j` coefficients that have this vertical frequency, of the coefficient
/// times its horizontal cosine. `list` holds the frequencies of the coefficients `ac`.
pub open spec fn frequency_sum<N>(
    m: Model<N>,
    list: Seq<(usize, usize)>,
    ac: Seq<N>,
    w: int,
    cy: int,
    x: int,
    j: int,
) -> N
    decreases j,
{
    if j <= 0 {
        m.from_int(0)
    } else {
        let before = frequency_sum(m, list, ac, w, cy, x, j - 1);
        if list[j - 1].1 == cy {
            m.plus(before, m.times(ac[j - 1], cosine(m, w, list[j - 1].0 as int, x)))
        } else {
            before
        }
    }
}

/// The sample at the column `x` of `w` and the row `y` of `h`, with the vertical frequencies
/// below `cy` taken into account.
pub open spec fn partial_sample<N>(
    m: Model<N>,
    dc: N,
    list: Seq<(usize, usize)>,
    ac: Seq<N>,
    w: int,
    h: int,
    x: int,
    y: int,
    cy: int,
) -> N
    decreases cy,
{
    if cy <= 0 {
        dc
    } else {
        m.plus(
            partial_sample(m, dc, list, ac, w, h, x, y, cy - 1),
            m.times(
                frequency_sum(m, list, ac, w, cy - 1, x, list.len() as int),
                m.times(cosine(m, h, cy - 1, y), m.from_int(2)),
            ),
        )
    }
}

/// The sample at the column `x` of `w` and the row `y` of `h` of a channel with `nx` by `ny`
/// components, the average `dc` and the other coefficients `ac`.
pub open spec fn sample<N>(
    m: Model<N>,
    dc: N,
    ac: Seq<N>,
    nx: int,
    ny: int,
    w: int,
    h: int,
    x: int,
    y: int,
) -> N {
    partial_sample(m, dc, triangle(nx, ny).drop_first(), ac, w, h, x, y, ny)
}

/// Reads the coefficients of a channel from `nibbles`, `n` of them from `start` on.
pub fn dequantize_ac<A: Arithmetic>(
    nibbles: &Vec<u8>,
    start: usize,
    n: usize,
    scale: A::Num,
) -> (ac: Vec<A::Num>)
    requires
        start + n <= nibbles@.len(),
    ensures
        ac@.len() == n,
        forall|m: Model<A::Num>| #[trigger]
            describes::<A>(m) ==> ac@ == dequantized_ac(
                m,
                nibbles@.subrange(start as int, start + n),
                scale,
            ),
{
    let half_range = ratio::<A>(15, 2);
    let one = A::from_int(1);
    let mut ac: Vec<A::Num> = Vec::new();
    let mut i: usize = 0;
    while i < n
        invariant
            i <= n,
            start + n <= nibbles.len(),
            ac@.len() == i,
            forall|m: Model<A::Num>| #[trigger]
                describes::<A>(m) ==> half_range == m.ratio(15, 2) && one == m.from_int(1),
            forall|m: Model<A::Num>, k: int|
                #![trigger describes::<A>(m), ac@[k]]
                describes::<A>(m) && 0 <= k < i ==> ac@[k] == dequantized(
                    m,
                    nibbles@[start + k],
                    scale,
                ),
        decreases n - i,
    {
        let steps = A::over(A::from_int(nibbles[start + i] as u32), half_range);
        let signed = A::minus(steps, one);
        ac.push(A::times(signed, scale));
        i += 1;
    }
    ac
}

/// Combines the coefficients with the vertical frequency `cy` with their horizontal cosines.
/// `list` begins with the frequencies of the average, which takes no part.
fn combine_row<A: Arithmetic>(
    list: &Vec<(usize, usize)>,
    ac: &Vec<A::Num>,
    table: &Vec<Vec<A::Num>>,
    w: usize,
    cy: usize,
) -> (row: Vec<A::Num>)
    requires
        list@.len() == ac@.len() + 1,
        has_shape(table@, table@.len() as int, w as int),
        forall|j: int| 0 <= j < list@.len() ==> (#[trigger] list@[j]).0 < table@.len(),
    ensures
        row@.len() == w,
        forall|m: Model<A::Num>, x: int|
            #![trigger describes::<A>(m), row@[x]]
            describes::<A>(m) && is_cos_table(m, table@, table@.len() as int, w as int) && 0 <= x
                < w ==> row@[x] == frequency_sum(
                m,
                list@.drop_first(),
                ac@,
                w as int,
                cy as int,
                x,
                ac@.len() as int,
            ),
{
    let zero = A::from_int(0);
    let mut row: Vec<A::Num> = Vec::new();
    let mut x: usize = 0;
    while x < w
        invariant
            x <= w,
            row@.len() == x,
            forall|i: int| 0 <= i < x ==> row@[i] == zero,
        decreases w - x,
    {
        row.push(zero);
        x += 1;
    }
    let mut j: usize = 1;
    while j < list.len()
        invariant
            1 <= j <= list@.len(),
            row@.len() == w,
            list@.len() == ac@.len() + 1,
            has_shape(table@, table@.len() as int, w as int),
            forall|j: int| 0 <= j < list@.len() ==> (#[trigger] list@[j]).0 < table@.len(),
            forall|m: Model<A::Num>, x: int|
                #![trigger describes::<A>(m), row@[x]]
                describes::<A>(m) && is_cos_table(m, table@, table@.len() as int, w as int) && 0
                    <= x < w ==> row@[x] == frequency_sum(
                    m,
                    list@.drop_first(),
                    ac@,
                    w as int,
                    cy as int,
                    x,
                    j - 1,
                ),
        decreases list@.len() - j,
    {
        let (cx, at) = list[j];
        let ghost before = row@;
        if at == cy {
            let value = ac[j - 1];
            let mut x: usize = 0;
            while x < w
                invariant
                    x <= w,
                    row@.len() == w,
                    before.len() == w,
                    cx < table@.len(),
                    table@[cx as int]@.len() == w,
                    forall|i: int| x <= i < w ==> row@[i] == before[i],
                    forall|m: Model<A::Num>, i: int|
                        #![trigger describes::<A>(m), row@[i]]
                        describes::<A>(m) && 0 <= i < x ==> row@[i] == m.plus(
                            before[i],
                            m.times(value, table@[cx as int]@[i]),
                        ),
                decreases w - x,
            {
                let product = A::times(value, table[cx][x]);
                let sum = A::plus(row[x], product);
                row.set(x, sum);
                x += 1;
            }
        }
        assert forall|m: Model<A::Num>, x: int|
            #![trigger describes::<A>(m), row@[x]]
            describes::<A>(m) && is_cos_table(m, table@, table@.len() as int, w as int) && 0 <= x
                < w implies row@[x] == frequency_sum(
            m,
            list@.drop_first(),
            ac@,
            w as int,
            cy as int,
            x,
            j as int,
        ) by {
            assert(before[x] == frequency_sum(
                m,
                list@.drop_first(),
                ac@,
                w as int,
                cy as int,
                x,
                j - 1,
            ));
            assert(table@[cx as int]@ == cosines(m, w as int, cx as int));
            assert(list@.drop_first()[j - 1] == list@[j as int]);
        }
        j += 1;
    }
    row
}

/// Whether `rows` holds the combined coefficients of all vertical frequencies below `ny`.
pub open spec fn are_combined<N>(
    m: Model<N>,
    list: Seq<(usize, usize)>,
    ac: Seq<N>,
    w: int,
    rows: Seq<Vec<N>>,
    ny: int,
) -> bool {
    forall|cy: int, x: int|
        0 <= cy < ny && 0 <= x < w ==> #[trigger] rows[cy]@[x] == frequency_sum(
            m,
            list,
            ac,
            w,
            cy,
            x,
            ac.len() as int,
        )
}

/// Combines the coefficients of each vertical frequency below `ny` with their horizontal
/// cosines.
pub fn combine<A: Arithmetic>(
    list: &Vec<(usize, usize)>,
    ac: &Vec<A::Num>,
    table: &Vec<Vec<A::Num>>,
    w: usize,
    ny: usize,
) -> (rows: Vec<Vec<A::Num>>)
    requires
        list@.len() == ac@.len() + 1,
        has_shape(table@, table@.len() as int, w as int),
        forall|j: int| 0 <= j < list@.len() ==> (#[trigger] list@[j]).0 < table@.len(),
    ensures
        has_shape(rows@, ny as int, w as int),
        forall|m: Model<A::Num>| #[trigger]
            describes::<A>(m) && is_cos_table(m, table@, table@.len() as int, w as int)
                ==> are_combined(m, list@.drop_first(), ac@, w as int, rows@, ny as int),
{
    let mut rows: Vec<Vec<A::Num>> = Vec::new();
    let mut cy: usize = 0;
    while cy < ny
        invariant
            cy <= ny,
            list@.len() == ac@.len() + 1,
            has_shape(table@, table@.len() as int, w as int),
            forall|j: int| 0 <= j < list@.len() ==> (#[trigger] list@[j]).0 < table@.len(),
            has_shape(rows@, cy as int, w as int),
            forall|m: Model<A::Num>| #[trigger]
                describes::<A>(m) && is_cos_table(m, table@, table@.len() as int, w as int)
                    ==> are_combined(m, list@.drop_first(), ac@, w as int, rows@, cy as int),
        decreases ny - cy,
    {
        let row = combine_row::<A>(list, ac, table, w, cy);
        let ghost before = rows@;
        rows.push(row);
        assert forall|m: Model<A::Num>| #[trigger] describes::<A>(m) && is_cos_table(
            m,
            table@,
            table@.len() as int,
            w as int,
        ) implies are_combined(m, list@.drop_first(), ac@, w as int, rows@, cy + 1) by {
            assert(are_combined(m, list@.drop_first(), ac@, w as int, before, cy as int));
            assert forall|c: int, x: int| 0 <= c < cy + 1 && 0 <= x < w implies #[trigger] rows@[c]@[x]
                == frequency_sum(
                m,
                list@.drop_first(),
                ac@,
                w as int,
                c,
                x,
                ac@.len() as int,
            ) by {
                if c < cy {
                    assert(rows@[c] == before[c]);
                    assert(before[c]@[x] == rows@[c]@[x]);
                } else {
                    assert(row@[x] == rows@[c]@[x]);
                }
            }
        }
        cy += 1;
    }
    rows
}

/// Sums the combined coefficients in `rows` up to the row `y` of the samples. The entries of
/// `table` are the vertical cosines.
pub fn sample_row<A: Arithmetic>(
    dc: A::Num,
    rows: &Vec<Vec<A::Num>>,
    table: &Vec<Vec<A::Num>>,
    w: usize,
    h: usize,
    y: usize,
) -> (out: Vec<A::Num>)
    requires
        y < h,
        rows@.len() <= table@.len(),
        has_shape(rows@, rows@.len() as int, w as int),
        has_shape(table@, table@.len() as int, h as int),
    ensures
        out@.len() == w,
        forall|m: Model<A::Num>, list: Seq<(usize, usize)>, ac: Seq<A::Num>, x: int|
            #![trigger describes::<A>(m), are_combined(m, list, ac, w as int, rows@, rows@.len() as int), out@[x]]
            describes::<A>(m) && is_cos_table(m, table@, table@.len() as int, h as int)
                && list.len() == ac.len() && are_combined(
                m,
                list,
                ac,
                w as int,
                rows@,
                rows@.len() as int,
            ) && 0 <= x < w ==> out@[x] == partial_sample(
                m,
                dc,
                list,
                ac,
                w as int,
                h as int,
                x,
                y as int,
                rows@.len() as int,
            ),
{
    let two = A::from_int(2);
    let mut out: Vec<A::Num> = Vec::new();
    let mut x: usize = 0;
    while x < w
        invariant
            x <= w,
            out@.len() == x,
            forall|i: int| 0 <= i < x ==> out@[i] == dc,
        decreases w - x,
    {
        out.push(dc);
        x += 1;
    }
    let mut cy: usize = 0;
    while cy < rows.len()
        invariant
            cy <= rows@.len() <= table@.len(),
            y < h,
            has_shape(rows@, rows@.len() as int, w as int),
            has_shape(table@, table@.len() as int, h as int),
            out@.len() == w,
            forall|m: Model<A::Num>| #[trigger] describes::<A>(m) ==> two == m.from_int(2),
            forall|m: Model<A::Num>, list: Seq<(usize, usize)>, ac: Seq<A::Num>, x: int|
                #![trigger describes::<A>(m), are_combined(m, list, ac, w as int, rows@, rows@.len() as int), out@[x]]
                describes::<A>(m) && is_cos_table(m, table@, table@.len() as int, h as int)
                    && list.len() == ac.len() && are_combined(
                    m,
                    list,
                    ac,
                    w as int,
                    rows@,
                    rows@.len() as int,
                ) && 0 <= x < w ==> out@[x] == partial_sample(
                    m,
                    dc,
                    list,
                    ac,
                    w as int,
                    h as int,
                    x,
                    y as int,
                    cy as int,
                ),
        decreases rows@.len() - cy,
    {
        let factor = A::times(table[cy][y], two);
        let ghost before = out@;
        let mut x: usize = 0;
        while x < w
            invariant
                x <= w,
                cy < rows@.len(),
                rows@[cy as int]@.len() == w,
                before.len() == w,
                out@.len() == w,
                forall|i: int| x <= i < w ==> out@[i] == before[i],
                forall|m: Model<A::Num>, i: int|
                    #![trigger describes::<A>(m), out@[i]]
                    describes::<A>(m) && 0 <= i < x ==> out@[i] == m.plus(
                        before[i],
                        m.times(rows@[cy as int]@[i], factor),
                    ),
            decreases w - x,
        {
            let product = A::times(rows[cy][x], factor);
            let sum = A::plus(out[x], product);
            out.set(x, sum);
            x += 1;
        }
        assert forall|m: Model<A::Num>, list: Seq<(usize, usize)>, ac: Seq<A::Num>, x: int|
            #![trigger describes::<A>(m), are_combined(m, list, ac, w as int, rows@, rows@.len() as int), out@[x]]
            describes::<A>(m) && is_cos_table(m, table@, table@.len() as int, h as int)
                && list.len() == ac.len() && are_combined(
                m,
                list,
                ac,
                w as int,
                rows@,
                rows@.len() as int,
            ) && 0 <= x < w implies out@[x] == partial_sample(
            m,
            dc,
            list,
            ac,
            w as int,
            h as int,
            x,
            y as int,
            cy + 1,
        ) by {
            assert(before[x] == partial_sample(
                m,
                dc,
                list,
                ac,
                w as int,
                h as int,
                x,
                y as int,
                cy as int,
            ));
            assert(table@[cy as int]@ == cosines(m, h as int, cy as int));
            assert(rows@[cy as int]@[x] == frequency_sum(
                m,
                list,
                ac,
                w as int,
                cy as int,
                x,
                ac.len() as int,
            ));
        }
        cy += 1;
    }
    out
}

} // verus!
