//! The forward transform: from the samples of a channel to its coefficients.
//!
//! The transform is separable. The columns of the channel are summed up against the vertical
//! cosines first, and the sums then against the horizontal cosines.
use crate::arithmetic::{describes, ratio, Arithmetic, Model};
use crate::cosine::{cos_tables, cosines, has_shape, is_cos_table};
use crate::geometry::{lemma_triangle_bounds, lemma_triangle_first, positions, triangle};
use vstd::prelude::*;

verus! {

/// The largest number of entries in a table of cosines or of column sums.
pub const TABLE_LEN: usize = 700;

/// The coefficients of one channel.
pub struct Channel<N> {
    /// The coefficient of the frequencies `(0, 0)`: the average of the samples.
    pub dc: N,
    /// The other coefficients in the order of the format, brought from `-scale..=scale` to
    /// `0..=1`.
    pub ac: Vec<N>,
    /// The largest magnitude among the other coefficients.
    pub scale: N,
}

/// The sum of the products of the first `n` numbers of `a` and `b`, from the first to the last.
pub open spec fn dot<N>(m: Model<N>, a: Seq<N>, b: Seq<N>, n: int) -> N
    decreases n,
{
    if n <= 0 {
        m.from_int(0)
    } else {
        m.plus(dot(m, a, b, n - 1), m.times(a[n - 1], b[n - 1]))
    }
}

/// The column `x` of a channel whose samples are listed row by row.
pub open spec fn column<N>(samples: Seq<N>, w: int, h: int, x: int) -> Seq<N> {
    Seq::new(h as nat, |y: int| samples[y * w + x])
}

/// The sums of all columns against the vertical cosine `cy`.
pub open spec fn column_sums<N>(m: Model<N>, samples: Seq<N>, w: int, h: int, cy: int) -> Seq<N> {
    Seq::new(w as nat, |x: int| dot(m, column(samples, w, h, x), cosines(m, h, cy), h))
}

/// The coefficient of the frequencies `(cx, cy)`.
pub open spec fn coefficient<N>(
    m: Model<N>,
    samples: Seq<N>,
    w: int,
    h: int,
    cx: int,
    cy: int,
) -> N {
    m.times(
        dot(m, column_sums(m, samples, w, h, cy), cosines(m, w, cx), w),
        m.ratio(1, w * h),
    )
}

/// The coefficients at `positions`.
pub open spec fn coefficients<N>(
    m: Model<N>,
    samples: Seq<N>,
    w: int,
    h: int,
    positions: Seq<(usize, usize)>,
) -> Seq<N> {
    Seq::new(
        positions.len(),
        |j: int| coefficient(m, samples, w, h, positions[j].0 as int, positions[j].1 as int),
    )
}

/// The largest magnitude among `values`, but at least zero.
pub open spec fn magnitude<N>(m: Model<N>, values: Seq<N>) -> N
    decreases values.len(),
{
    if values.len() == 0 {
        m.from_int(0)
    } else {
        m.larger(m.abs(values.last()), magnitude(m, values.drop_last()))
    }
}

/// `values` brought from `-scale..=scale` to `0..=1`, unless `scale` is zero.
pub open spec fn normalized<N>(m: Model<N>, values: Seq<N>, scale: N) -> Seq<N> {
    if m.exceeds(scale, m.from_int(0)) {
        Seq::new(
            values.len(),
            |j: int|
                m.plus(m.ratio(1, 2), m.times(m.over(m.ratio(1, 2), scale), values[j])),
        )
    } else {
        values
    }
}

/// The coefficients other than that of the frequencies `(0, 0)` of a channel with `nx` by `ny`
/// components.
pub open spec fn other_coefficients<N>(
    m: Model<N>,
    samples: Seq<N>,
    w: int,
    h: int,
    nx: int,
    ny: int,
) -> Seq<N> {
    coefficients(m, samples, w, h, triangle(nx, ny).drop_first())
}

/// The scale of a channel with `nx` by `ny` components.
pub open spec fn channel_scale<N>(
    m: Model<N>,
    samples: Seq<N>,
    w: int,
    h: int,
    nx: int,
    ny: int,
) -> N {
    magnitude(m, other_coefficients(m, samples, w, h, nx, ny))
}

/// The coefficients of a channel with `nx` by `ny` components as parts of its scale.
pub open spec fn channel_ac<N>(
    m: Model<N>,
    samples: Seq<N>,
    w: int,
    h: int,
    nx: int,
    ny: int,
) -> Seq<N> {
    normalized(
        m,
        other_coefficients(m, samples, w, h, nx, ny),
        channel_scale(m, samples, w, h, nx, ny),
    )
}

/// Whether `channel` holds the coefficients of `samples` with `nx` by `ny` components.
pub open spec fn is_channel<N>(
    m: Model<N>,
    samples: Seq<N>,
    w: int,
    h: int,
    nx: int,
    ny: int,
    channel: Channel<N>,
) -> bool {
    &&& channel.dc == coefficient(m, samples, w, h, 0, 0)
    &&& channel.scale == channel_scale(m, samples, w, h, nx, ny)
    &&& channel.ac@ == channel_ac(m, samples, w, h, nx, ny)
}

/// Sums the products of the numbers of `a` and `b`.
fn sum_products<A: Arithmetic>(a: &Vec<A::Num>, b: &Vec<A::Num>) -> (sum: A::Num)
    requires
        a@.len() == b@.len(),
    ensures
        forall|m: Model<A::Num>| #[trigger]
            describes::<A>(m) ==> sum == dot(m, a@, b@, a@.len() as int),
{
    let mut sum = A::from_int(0);
    let mut i: usize = 0;
    while i < a.len()
        invariant
            i <= a@.len(),
            a@.len() == b@.len(),
            forall|m: Model<A::Num>| #[trigger]
                describes::<A>(m) ==> sum == dot(m, a@, b@, i as int),
        decreases a@.len() - i,
    {
        let product = A::times(a[i], b[i]);
        sum = A::plus(sum, product);
        i += 1;
    }
    sum
}

/// Sums the columns of a channel up against the numbers in `weights`, one for each row.
fn sum_columns<A: Arithmetic>(
    samples: &[A::Num],
    w: usize,
    h: usize,
    weights: &Vec<A::Num>,
) -> (sums: Vec<A::Num>)
    requires
        w * h <= samples.len(),
        weights@.len() == h,
    ensures
        sums@.len() == w,
        forall|m: Model<A::Num>| #[trigger]
            describes::<A>(m) ==> sums@ == Seq::new(
                w as nat,
                |x: int| dot(m, column(samples@, w as int, h as int, x), weights@, h as int),
            ),
{
    let mut sums: Vec<A::Num> = Vec::new();
    let zero = A::from_int(0);
    let mut x: usize = 0;
    while x < w
        invariant
            x <= w,
            sums@.len() == x,
            forall|i: int| 0 <= i < x ==> sums@[i] == zero,
        decreases w - x,
    {
        sums.push(zero);
        x += 1;
    }
    let mut y: usize = 0;
    while y < h
        invariant
            y <= h,
            sums@.len() == w,
            w * h <= samples.len(),
            weights@.len() == h,
            forall|m: Model<A::Num>, x: int|
                #![trigger describes::<A>(m), sums@[x]]
                describes::<A>(m) && 0 <= x < w ==> sums@[x] == dot(
                    m,
                    column(samples@, w as int, h as int, x),
                    weights@,
                    y as int,
                ),
        decreases h - y,
    {
        let weight = weights[y];
        let ghost before = sums@;
        assert(y * w + w <= w * h) by (nonlinear_arith)
            requires
                y < h,
        ;
        let row = y * w;
        let mut x: usize = 0;
        while x < w
            invariant
                x <= w,
                y < h,
                row == y * w,
                row + w <= samples.len(),
                before.len() == w,
                sums@.len() == w,
                forall|i: int| x <= i < w ==> sums@[i] == before[i],
                forall|m: Model<A::Num>, i: int|
                    #![trigger describes::<A>(m), sums@[i]]
                    describes::<A>(m) && 0 <= i < x ==> sums@[i] == m.plus(
                        before[i],
                        m.times(samples@[y * w + i], weight),
                    ),
            decreases w - x,
        {
            let product = A::times(samples[row + x], weight);
            let sum = A::plus(sums[x], product);
            sums.set(x, sum);
            x += 1;
        }
        assert forall|m: Model<A::Num>, x: int|
            #![trigger describes::<A>(m), sums@[x]]
            describes::<A>(m) && 0 <= x < w implies sums@[x] == dot(
            m,
            column(samples@, w as int, h as int, x),
            weights@,
            y + 1,
        ) by {
            assert(before[x] == dot(
                m,
                column(samples@, w as int, h as int, x),
                weights@,
                y as int,
            ));
        }
        y += 1;
    }
    sums
}

/// Whether `sums` holds the column sums of all vertical frequencies below `ny`.
spec fn are_column_sums<N>(
    m: Model<N>,
    samples: Seq<N>,
    w: int,
    h: int,
    sums: Seq<Vec<N>>,
    ny: int,
) -> bool {
    forall|cy: int| 0 <= cy < ny ==> (#[trigger] sums[cy])@ == column_sums(m, samples, w, h, cy)
}

/// Sums the columns of a channel up against each of the first `ny` vertical cosines.
fn all_column_sums<A: Arithmetic>(
    samples: &[A::Num],
    w: usize,
    h: usize,
    ny: usize,
) -> (sums: Vec<Vec<A::Num>>)
    requires
        w * h <= samples.len(),
        h <= u32::MAX,
        ny <= u32::MAX,
    ensures
        has_shape(sums@, ny as int, w as int),
        forall|m: Model<A::Num>| #[trigger]
            describes::<A>(m) ==> are_column_sums(
                m,
                samples@,
                w as int,
                h as int,
                sums@,
                ny as int,
            ),
{
    let table = cos_tables::<A>(ny, h);
    let mut sums: Vec<Vec<A::Num>> = Vec::new();
    let mut cy: usize = 0;
    while cy < ny
        invariant
            cy <= ny,
            w * h <= samples.len(),
            has_shape(table@, ny as int, h as int),
            forall|m: Model<A::Num>| #[trigger]
                describes::<A>(m) ==> is_cos_table(m, table@, ny as int, h as int),
            has_shape(sums@, cy as int, w as int),
            forall|m: Model<A::Num>| #[trigger]
                describes::<A>(m) ==> are_column_sums(
                    m,
                    samples@,
                    w as int,
                    h as int,
                    sums@,
                    cy as int,
                ),
        decreases ny - cy,
    {
        let row = sum_columns::<A>(samples, w, h, &table[cy]);
        assert forall|m: Model<A::Num>| #[trigger] describes::<A>(m) implies row@ == column_sums(
            m,
            samples@,
            w as int,
            h as int,
            cy as int,
        ) by {
            assert(table@[cy as int]@ == cosines(m, h as int, cy as int));
        }
        sums.push(row);
        cy += 1;
    }
    sums
}

/// Computes the coefficients at the positions of a channel with `nx` by `ny` components.
fn all_coefficients<A: Arithmetic>(
    samples: &[A::Num],
    w: usize,
    h: usize,
    nx: usize,
    ny: usize,
) -> (all: Vec<A::Num>)
    requires
        w <= TABLE_LEN,
        h <= TABLE_LEN,
        w * h <= samples.len(),
        nx <= u32::MAX,
        ny <= u32::MAX,
        nx * ny <= usize::MAX,
    ensures
        all@.len() == triangle(nx as int, ny as int).len(),
        forall|m: Model<A::Num>| #[trigger]
            describes::<A>(m) ==> all@ == coefficients(
                m,
                samples@,
                w as int,
                h as int,
                triangle(nx as int, ny as int),
            ),
{
    assert(w * h <= 490000) by (nonlinear_arith)
        requires
            w <= 700,
            h <= 700,
    ;
    let table = cos_tables::<A>(nx, w);
    let sums = all_column_sums::<A>(samples, w, h, ny);
    let list = positions(nx, ny);
    let share = ratio::<A>(1, (w * h) as u32);
    let mut all: Vec<A::Num> = Vec::new();
    let mut j: usize = 0;
    proof {
        lemma_triangle_bounds(nx as int, ny as int);
    }
    while j < list.len()
        invariant
            j <= list@.len(),
            list@ == triangle(nx as int, ny as int),
            forall|k: int| 0 <= k < list@.len() ==> (#[trigger] list@[k]).0 < nx && list@[k].1 < ny,
            has_shape(table@, nx as int, w as int),
            has_shape(sums@, ny as int, w as int),
            forall|m: Model<A::Num>| #[trigger]
                describes::<A>(m) ==> is_cos_table(m, table@, nx as int, w as int),
            forall|m: Model<A::Num>| #[trigger]
                describes::<A>(m) ==> are_column_sums(
                    m,
                    samples@,
                    w as int,
                    h as int,
                    sums@,
                    ny as int,
                ),
            forall|m: Model<A::Num>| #[trigger]
                describes::<A>(m) ==> share == m.ratio(1, w * h),
            all@.len() == j,
            forall|m: Model<A::Num>, k: int|
                #![trigger describes::<A>(m), all@[k]]
                describes::<A>(m) && 0 <= k < j ==> all@[k] == coefficient(
                    m,
                    samples@,
                    w as int,
                    h as int,
                    list@[k].0 as int,
                    list@[k].1 as int,
                ),
        decreases list@.len() - j,
    {
        let (cx, cy) = list[j];
        let sum = sum_products::<A>(&sums[cy], &table[cx]);
        let value = A::times(sum, share);
        assert forall|m: Model<A::Num>| #[trigger] describes::<A>(m) implies value == coefficient(
            m,
            samples@,
            w as int,
            h as int,
            cx as int,
            cy as int,
        ) by {
            assert(sums@[cy as int]@ == column_sums(m, samples@, w as int, h as int, cy as int));
            assert(table@[cx as int]@ == cosines(m, w as int, cx as int));
        }
        all.push(value);
        j += 1;
    }
    all
}

/// Whether a channel of `w` by `h` samples with `nx` by `ny` components can be transformed: its
/// tables of cosines and of column sums are not too large, and its components can be counted.
pub open spec fn is_transformable(w: int, h: int, nx: int, ny: int) -> bool {
    &&& nx * w <= TABLE_LEN
    &&& ny * h <= TABLE_LEN
    &&& ny * w <= TABLE_LEN
    &&& 1 <= nx <= u32::MAX
    &&& 1 <= ny <= u32::MAX
    &&& nx * ny <= usize::MAX
}

/// Transforms the samples of a channel, given row by row, to its coefficients. Samples after the
/// last row take no part.
pub fn encode_channel<A: Arithmetic>(
    samples: &[A::Num],
    w: usize,
    h: usize,
    nx: usize,
    ny: usize,
) -> (channel: Channel<A::Num>)
    requires
        w * h <= samples.len(),
        is_transformable(w as int, h as int, nx as int, ny as int),
    ensures
        channel.ac@.len() == triangle(nx as int, ny as int).len() - 1,
        forall|m: Model<A::Num>| #[trigger]
            describes::<A>(m) ==> is_channel(
                m,
                samples@,
                w as int,
                h as int,
                nx as int,
                ny as int,
                channel,
            ),
{
    assert(w <= 700 && h <= 700) by (nonlinear_arith)
        requires
            nx * w <= 700,
            ny * h <= 700,
            1 <= nx,
            1 <= ny,
    ;
    let all = all_coefficients::<A>(samples, w, h, nx, ny);
    proof {
        lemma_triangle_first(nx as int, ny as int);
    }
    let zero = A::from_int(0);
    let mut scale = zero;
    let mut j: usize = 1;
    while j < all.len()
        invariant
            1 <= j <= all@.len(),
            forall|m: Model<A::Num>| #[trigger]
                describes::<A>(m) ==> scale == magnitude(m, all@.subrange(1, j as int)),
        decreases all@.len() - j,
    {
        let size = A::abs(all[j]);
        scale = A::larger(size, scale);
        assert(all@.subrange(1, j + 1).drop_last() == all@.subrange(1, j as int));
        j += 1;
    }
    assert(all@.subrange(1, j as int) == all@.drop_first());
    let spread = A::exceeds(scale, zero);
    let one_half = ratio::<A>(1, 2);
    let factor = if spread {
        A::over(one_half, scale)
    } else {
        zero
    };
    let mut ac: Vec<A::Num> = Vec::new();
    let mut k: usize = 1;
    while k < all.len()
        invariant
            1 <= k <= all@.len(),
            ac@.len() == k - 1,
            forall|m: Model<A::Num>| #[trigger]
                describes::<A>(m) ==> {
                    &&& spread == m.exceeds(scale, m.from_int(0))
                    &&& one_half == m.ratio(1, 2)
                    &&& spread ==> factor == m.over(m.ratio(1, 2), scale)
                },
            forall|m: Model<A::Num>, i: int|
                #![trigger describes::<A>(m), ac@[i]]
                describes::<A>(m) && 0 <= i < k - 1 ==> ac@[i] == normalized(
                    m,
                    all@.drop_first(),
                    scale,
                )[i],
        decreases all@.len() - k,
    {
        let value = if spread {
            let product = A::times(factor, all[k]);
            A::plus(one_half, product)
        } else {
            all[k]
        };
        ac.push(value);
        k += 1;
    }
    let dc = all[0];
    let channel = Channel { dc, ac, scale };
    assert forall|m: Model<A::Num>| #[trigger] describes::<A>(m) implies is_channel(
        m,
        samples@,
        w as int,
        h as int,
        nx as int,
        ny as int,
        channel,
    ) by {
        assert(all@.drop_first() == other_coefficients(
            m,
            samples@,
            w as int,
            h as int,
            nx as int,
            ny as int,
        ));
        assert(ac@ == normalized(m, all@.drop_first(), scale));
    }
    channel
}

} // verus!
