//! From a hash to an image, to its average colour and to its aspect ratio.
use crate::arithmetic::{describes, ratio, Arithmetic, Model};
use crate::color::{clamp_unit, clamped, component_byte, convert_lpq, to_component, to_rgb};
use crate::cosine::{cos_tables, has_shape, is_cos_table};
use crate::geometry::{
    decoded_sides, decoded_size, lemma_decoded_size, lemma_small_triangles, lemma_triangle_bounds,
    lemma_triangle_first, lemma_triangle_len, positions, triangle,
};
use crate::header::{header_of, Header};
use crate::inverse::{are_combined, combine, dequantize_ac, dequantized_ac, sample, sample_row};
use crate::parts::{
    alpha_count, alpha_of, chroma_count, has_averages, is_complete, luma_count, nibbles_of,
    parse_averages, Parts,
};
use vstd::arithmetic::div_mod::lemma_fundamental_div_mod_converse;
use vstd::prelude::*;

verus! {

/// The luminance average of a hash with this header.
pub open spec fn average_l<N>(m: Model<N>, header: Header) -> N {
    m.ratio(header.l_dc as int, 63)
}

/// The chroma average that the six-bit number `dc` stands for.
pub open spec fn signed_average<N>(m: Model<N>, dc: int) -> N {
    m.minus(m.over(m.from_int(dc), m.ratio(63, 2)), m.from_int(1))
}

/// The scale of a chroma channel that the six-bit number `scale` stands for.
pub open spec fn chroma_scale<N>(m: Model<N>, scale: int) -> N {
    m.times(m.ratio(scale, 63), m.ratio(5, 4))
}

/// The average of the alpha channel of `hash`: one where there is no such channel.
pub open spec fn average_a<N>(m: Model<N>, hash: Seq<u8>) -> N {
    match alpha_of(hash) {
        Some((dc, scale)) => m.ratio(dc as int, 15),
        None => m.from_int(1),
    }
}

/// The width and the height of the image that `hash` is decoded to.
pub open spec fn size_of_hash(hash: Seq<u8>) -> (int, int) {
    decoded_size(header_of(hash).aspect().0, header_of(hash).aspect().1)
}

/// The coefficients of the channel whose `n` nibbles begin with that at the index `start`.
pub open spec fn channel_of<N>(
    m: Model<N>,
    hash: Seq<u8>,
    start: int,
    n: int,
    scale: N,
) -> Seq<N> {
    dequantized_ac(m, nibbles_of(hash).subrange(start, start + n), scale)
}

/// The luminance of the pixel at the column `x` and the row `y`.
pub open spec fn pixel_l<N>(m: Model<N>, hash: Seq<u8>, x: int, y: int) -> N {
    let header = header_of(hash);
    let (w, h) = size_of_hash(hash);
    let (nx, ny) = header.components();
    let scale = m.ratio(header.l_scale as int, 31);
    let ac = channel_of(m, hash, 0, luma_count(header), scale);
    sample(m, average_l(m, header), ac, nx, ny, w, h, x, y)
}

/// The first chroma value of the pixel at the column `x` and the row `y`.
pub open spec fn pixel_p<N>(m: Model<N>, hash: Seq<u8>, x: int, y: int) -> N {
    let header = header_of(hash);
    let (w, h) = size_of_hash(hash);
    let scale = chroma_scale(m, header.p_scale as int);
    let ac = channel_of(m, hash, luma_count(header), chroma_count(), scale);
    sample(m, signed_average(m, header.p_dc as int), ac, 3, 3, w, h, x, y)
}

/// The second chroma value of the pixel at the column `x` and the row `y`.
pub open spec fn pixel_q<N>(m: Model<N>, hash: Seq<u8>, x: int, y: int) -> N {
    let header = header_of(hash);
    let (w, h) = size_of_hash(hash);
    let scale = chroma_scale(m, header.q_scale as int);
    let start = luma_count(header) + chroma_count();
    let ac = channel_of(m, hash, start, chroma_count(), scale);
    sample(m, signed_average(m, header.q_dc as int), ac, 3, 3, w, h, x, y)
}

/// The alpha value of the pixel at the column `x` and the row `y`: one where there is no alpha
/// channel.
pub open spec fn pixel_a<N>(m: Model<N>, hash: Seq<u8>, x: int, y: int) -> N {
    let header = header_of(hash);
    let (w, h) = size_of_hash(hash);
    match alpha_of(hash) {
        Some((dc, scale)) => {
            let start = luma_count(header) + 2 * chroma_count();
            let ac = channel_of(m, hash, start, alpha_count(), m.ratio(scale as int, 15));
            sample(m, average_a(m, hash), ac, 5, 5, w, h, x, y)
        },
        None => average_a(m, hash),
    }
}

/// The red, green, blue and alpha components of the pixel with these channel values.
pub open spec fn components_of<N>(m: Model<N>, l: N, p: N, q: N, a: N) -> Seq<u8> {
    let rgb = to_rgb(m, l, p, q);
    seq![
        to_component(m, rgb.r),
        to_component(m, rgb.g),
        to_component(m, rgb.b),
        to_component(m, a),
    ]
}

/// The components of the pixel at the column `x` and the row `y` of the image that `hash` is
/// decoded to.
pub open spec fn decoded_pixel<N>(m: Model<N>, hash: Seq<u8>, x: int, y: int) -> Seq<u8> {
    components_of(
        m,
        pixel_l(m, hash, x, y),
        pixel_p(m, hash, x, y),
        pixel_q(m, hash, x, y),
        pixel_a(m, hash, x, y),
    )
}

/// The components of the image that `hash` is decoded to, pixel by pixel and row by row.
pub open spec fn decoded_rgba<N>(m: Model<N>, hash: Seq<u8>) -> Seq<u8> {
    let (w, h) = size_of_hash(hash);
    Seq::new(
        (w * h * 4) as nat,
        |k: int| decoded_pixel(m, hash, (k / 4) % w, (k / 4) / w)[k % 4],
    )
}

/// A channel that is ready to be sampled: its average and its combined coefficients, a row for
/// each vertical frequency.
struct Prepared<N> {
    dc: N,
    rows: Vec<Vec<N>>,
}

/// Whether `prepared` samples to the channel with these coefficients.
spec fn is_prepared<N>(
    m: Model<N>,
    prepared: Prepared<N>,
    nibbles: Seq<u8>,
    scale: N,
    nx: int,
    ny: int,
    w: int,
) -> bool {
    are_combined(
        m,
        triangle(nx, ny).drop_first(),
        dequantized_ac(m, nibbles, scale),
        w,
        prepared.rows@,
        ny,
    )
}

/// Prepares the channel with `nx` by `ny` components whose nibbles begin at `start`.
fn prepare<A: Arithmetic>(
    dc: A::Num,
    scale: A::Num,
    nibbles: &Vec<u8>,
    start: usize,
    nx: usize,
    ny: usize,
    table: &Vec<Vec<A::Num>>,
    w: usize,
) -> (prepared: Prepared<A::Num>)
    requires
        1 <= nx <= table@.len(),
        1 <= ny,
        nx * ny <= usize::MAX,
        has_shape(table@, table@.len() as int, w as int),
        start + triangle(nx as int, ny as int).len() - 1 <= nibbles@.len(),
    ensures
        prepared.dc == dc,
        has_shape(prepared.rows@, ny as int, w as int),
        forall|m: Model<A::Num>| #[trigger]
            describes::<A>(m) && is_cos_table(m, table@, table@.len() as int, w as int)
                ==> is_prepared(
                m,
                prepared,
                nibbles@.subrange(
                    start as int,
                    start + triangle(nx as int, ny as int).len() - 1,
                ),
                scale,
                nx as int,
                ny as int,
                w as int,
            ),
{
    let list = positions(nx, ny);
    proof {
        lemma_triangle_first(nx as int, ny as int);
        lemma_triangle_bounds(nx as int, ny as int);
    }
    let ac = dequantize_ac::<A>(nibbles, start, list.len() - 1, scale);
    let rows = combine::<A>(&list, &ac, table, w, ny);
    Prepared { dc, rows }
}

/// Samples the row `y` of a channel.
fn sample_prepared<A: Arithmetic>(
    prepared: &Prepared<A::Num>,
    table: &Vec<Vec<A::Num>>,
    w: usize,
    h: usize,
    y: usize,
) -> (out: Vec<A::Num>)
    requires
        y < h,
        prepared.rows@.len() <= table@.len(),
        has_shape(prepared.rows@, prepared.rows@.len() as int, w as int),
        has_shape(table@, table@.len() as int, h as int),
    ensures
        out@.len() == w,
        forall|m: Model<A::Num>, nibbles: Seq<u8>, scale: A::Num, nx: int, x: int|
            #![trigger describes::<A>(m), is_prepared(m, *prepared, nibbles, scale, nx, prepared.rows@.len() as int, w as int), out@[x]]
            describes::<A>(m) && is_cos_table(m, table@, table@.len() as int, h as int)
                && is_prepared(
                m,
                *prepared,
                nibbles,
                scale,
                nx,
                prepared.rows@.len() as int,
                w as int,
            ) && triangle(nx, prepared.rows@.len() as int).len() == nibbles.len() + 1 && 0 <= x
                < w ==> out@[x] == sample(
                m,
                prepared.dc,
                dequantized_ac(m, nibbles, scale),
                nx,
                prepared.rows@.len() as int,
                w as int,
                h as int,
                x,
                y as int,
            ),
{
    sample_row::<A>(prepared.dc, &prepared.rows, table, w, h, y)
}

/// A row of `w` equal numbers.
fn repeat<N: Copy>(value: N, w: usize) -> (out: Vec<N>)
    ensures
        out@ == Seq::new(w as nat, |x: int| value),
{
    let mut out: Vec<N> = Vec::new();
    let mut x: usize = 0;
    while x < w
        invariant
            x <= w,
            out@ == Seq::new(x as nat, |i: int| value),
        decreases w - x,
    {
        out.push(value);
        x += 1;
        assert(out@ == Seq::new(x as nat, |i: int| value));
    }
    out
}

/// The components of a row of pixels with these channel values.
spec fn row_components<N>(m: Model<N>, l: Seq<N>, p: Seq<N>, q: Seq<N>, a: Seq<N>) -> Seq<u8> {
    Seq::new(
        4 * l.len(),
        |k: int| components_of(m, l[k / 4], p[k / 4], q[k / 4], a[k / 4])[k % 4],
    )
}

/// Appends the components of a row of pixels to `out`.
fn append_row<A: Arithmetic>(
    l: &Vec<A::Num>,
    p: &Vec<A::Num>,
    q: &Vec<A::Num>,
    a: &Vec<A::Num>,
    out: &mut Vec<u8>,
)
    requires
        l@.len() == p@.len() == q@.len() == a@.len(),
    ensures
        final(out)@.len() == old(out)@.len() + 4 * l@.len(),
        forall|m: Model<A::Num>| #[trigger]
            describes::<A>(m) ==> final(out)@ == old(out)@ + row_components(m, l@, p@, q@, a@),
{
    let ghost before = out@;
    let mut x: usize = 0;
    while x < l.len()
        invariant
            x <= l@.len(),
            l@.len() == p@.len() == q@.len() == a@.len(),
            out@.len() == before.len() + 4 * x,
            forall|m: Model<A::Num>| #[trigger]
                describes::<A>(m) ==> out@ == before + row_components(m, l@, p@, q@, a@).take(
                    4 * x as int,
                ),
        decreases l@.len() - x,
    {
        let rgb = convert_lpq::<A>(l[x], p[x], q[x]);
        let red = component_byte::<A>(rgb.r);
        let green = component_byte::<A>(rgb.g);
        let blue = component_byte::<A>(rgb.b);
        let opacity = component_byte::<A>(a[x]);
        let ghost prior = out@;
        out.push(red);
        out.push(green);
        out.push(blue);
        out.push(opacity);
        assert forall|m: Model<A::Num>| #[trigger] describes::<A>(m) implies out@ == before
            + row_components(m, l@, p@, q@, a@).take(4 * (x + 1)) by {
            let row = row_components(m, l@, p@, q@, a@);
            let pixel = components_of(m, l@[x as int], p@[x as int], q@[x as int], a@[x as int]);
            assert(prior == before + row.take(4 * x as int));
            assert(out@ == prior + pixel);
            assert(row.take(4 * (x + 1)) =~= row.take(4 * x as int) + pixel);
        }
        x += 1;
    }
    assert forall|m: Model<A::Num>| #[trigger] describes::<A>(m) implies out@ == before
        + row_components(m, l@, p@, q@, a@) by {
        let row = row_components(m, l@, p@, q@, a@);
        assert(row.take(4 * x as int) =~= row);
    }
}

/// A row of pixels makes up the part of the image from its first component to that of the next
/// row.
proof fn lemma_append_row<N>(
    m: Model<N>,
    hash: Seq<u8>,
    y: int,
    l: Seq<N>,
    p: Seq<N>,
    q: Seq<N>,
    a: Seq<N>,
)
    requires
        0 <= size_of_hash(hash).0,
        0 <= y < size_of_hash(hash).1,
        l.len() == size_of_hash(hash).0,
        forall|x: int|
            0 <= x < l.len() ==> {
                &&& #[trigger] l[x] == pixel_l(m, hash, x, y)
                &&& p[x] == pixel_p(m, hash, x, y)
                &&& q[x] == pixel_q(m, hash, x, y)
                &&& a[x] == pixel_a(m, hash, x, y)
            },
    ensures
        decoded_rgba(m, hash).take(4 * (size_of_hash(hash).0 * (y + 1))) == decoded_rgba(
            m,
            hash,
        ).take(4 * (size_of_hash(hash).0 * y)) + row_components(m, l, p, q, a),
{
    let (w, h) = size_of_hash(hash);
    let all = decoded_rgba(m, hash);
    let row = row_components(m, l, p, q, a);
    assert(0 <= w * y && w * (y + 1) == w * y + w && w * (y + 1) <= w * h) by (nonlinear_arith)
        requires
            0 <= w,
            0 <= y < h,
    ;
    assert forall|k: int| 0 <= k < 4 * w implies #[trigger] row[k] == all[4 * (w * y) + k] by {
        let i = 4 * (w * y) + k;
        assert(i / 4 == w * y + k / 4 && i % 4 == k % 4);
        lemma_fundamental_div_mod_converse(i / 4, w, y, k / 4);
        assert(l[k / 4] == pixel_l(m, hash, k / 4, y));
    }
    assert(all.take(4 * (w * (y + 1))) =~= all.take(4 * (w * y)) + row);
}

/// The chroma average that a six-bit number stands for.
fn read_signed<A: Arithmetic>(dc: u32) -> (v: A::Num)
    ensures
        forall|m: Model<A::Num>| #[trigger]
            describes::<A>(m) ==> v == signed_average(m, dc as int),
{
    let steps = A::over(A::from_int(dc), ratio::<A>(63, 2));
    A::minus(steps, A::from_int(1))
}

/// The scale of a chroma channel that a six-bit number stands for.
fn read_chroma_scale<A: Arithmetic>(scale: u16) -> (v: A::Num)
    ensures
        forall|m: Model<A::Num>| #[trigger]
            describes::<A>(m) ==> v == chroma_scale(m, scale as int),
{
    let part = ratio::<A>(scale as u32, 63);
    A::times(part, ratio::<A>(5, 4))
}

/// The channels of a hash, ready to be sampled. There is no alpha channel where `a` is `None`.
struct Plan<N> {
    l: Prepared<N>,
    p: Prepared<N>,
    q: Prepared<N>,
    a: Option<Prepared<N>>,
}

/// Whether the channels of `plan` have as many rows as those of `hash` have vertical frequencies.
spec fn plan_shape<N>(hash: Seq<u8>, plan: Plan<N>) -> bool {
    let w = size_of_hash(hash).0;
    &&& has_shape(plan.l.rows@, header_of(hash).components().1, w)
    &&& has_shape(plan.p.rows@, 3, w)
    &&& has_shape(plan.q.rows@, 3, w)
    &&& plan.a is Some <==> header_of(hash).has_alpha
    &&& plan.a matches Some(a) ==> has_shape(a.rows@, 5, w)
}

/// Whether `plan` holds the channels of `hash`.
spec fn is_plan<N>(m: Model<N>, hash: Seq<u8>, plan: Plan<N>) -> bool {
    let header = header_of(hash);
    let (nx, ny) = header.components();
    let w = size_of_hash(hash).0;
    let nibbles = nibbles_of(hash);
    let n = luma_count(header);
    let c = chroma_count();
    &&& plan.l.dc == average_l(m, header)
    &&& plan.p.dc == signed_average(m, header.p_dc as int)
    &&& plan.q.dc == signed_average(m, header.q_dc as int)
    &&& is_prepared(
        m,
        plan.l,
        nibbles.subrange(0, n),
        m.ratio(header.l_scale as int, 31),
        nx,
        ny,
        w,
    )
    &&& is_prepared(
        m,
        plan.p,
        nibbles.subrange(n, n + c),
        chroma_scale(m, header.p_scale as int),
        3,
        3,
        w,
    )
    &&& is_prepared(
        m,
        plan.q,
        nibbles.subrange(n + c, n + c + c),
        chroma_scale(m, header.q_scale as int),
        3,
        3,
        w,
    )
    &&& alpha_of(hash) matches Some((dc, scale)) ==> {
        &&& plan.a->0.dc == average_a(m, hash)
        &&& is_prepared(
            m,
            plan.a->0,
            nibbles.subrange(n + 2 * c, n + 2 * c + alpha_count()),
            m.ratio(scale as int, 15),
            5,
            5,
            w,
        )
    }
}

/// Prepares the channels of a hash.
fn make_plan<A: Arithmetic>(
    Ghost(hash): Ghost<Seq<u8>>,
    parts: &Parts,
    nx: usize,
    ny: usize,
    table: &Vec<Vec<A::Num>>,
    w: usize,
) -> (plan: Plan<A::Num>)
    requires
        is_complete(hash),
        parts.header == header_of(hash),
        parts.alpha == alpha_of(hash),
        parts.nibbles@ == nibbles_of(hash),
        (nx as int, ny as int) == header_of(hash).components(),
        w == size_of_hash(hash).0,
        nx <= table@.len(),
        3 <= table@.len(),
        header_of(hash).has_alpha ==> 5 <= table@.len(),
        has_shape(table@, table@.len() as int, w as int),
    ensures
        plan_shape(hash, plan),
        forall|m: Model<A::Num>| #[trigger]
            describes::<A>(m) && is_cos_table(m, table@, table@.len() as int, w as int)
                ==> is_plan(m, hash, plan),
{
    let header = parts.header;
    proof {
        lemma_small_triangles();
        lemma_triangle_first(nx as int, ny as int);
        lemma_triangle_len(nx as int, ny as int);
    }
    assert(nx * ny <= 49) by (nonlinear_arith)
        requires
            nx <= 7,
            ny <= 7,
    ;
    let n = positions(nx, ny).len() - 1;
    let l = prepare::<A>(
        ratio::<A>(header.l_dc, 63),
        ratio::<A>(header.l_scale, 31),
        &parts.nibbles,
        0,
        nx,
        ny,
        table,
        w,
    );
    let p = prepare::<A>(
        read_signed::<A>(header.p_dc),
        read_chroma_scale::<A>(header.p_scale),
        &parts.nibbles,
        n,
        3,
        3,
        table,
        w,
    );
    let q = prepare::<A>(
        read_signed::<A>(header.q_dc),
        read_chroma_scale::<A>(header.q_scale),
        &parts.nibbles,
        n + 5,
        3,
        3,
        table,
        w,
    );
    let a = match parts.alpha {
        Some((dc, scale)) => Some(
            prepare::<A>(
                ratio::<A>(dc as u32, 15),
                ratio::<A>(scale as u32, 15),
                &parts.nibbles,
                n + 10,
                5,
                5,
                table,
                w,
            ),
        ),
        None => None,
    };
    Plan { l, p, q, a }
}

/// Decodes a hash to the image that it stands for: its width, its height and its pixels, row by
/// row as red, green, blue and alpha. Fails where the hash is too short.
pub fn thumb_hash_to_rgba<A: Arithmetic>(hash: &[u8]) -> (r: Result<(usize, usize, Vec<u8>), ()>)
    ensures
        r is Ok <==> is_complete(hash@),
        r matches Ok((w, h, rgba)) ==> {
            &&& (w as int, h as int) == size_of_hash(hash@)
            &&& rgba@.len() == w * h * 4
            &&& forall|m: Model<A::Num>| #[trigger]
                describes::<A>(m) ==> rgba@ == decoded_rgba(m, hash@)
        },
{
    let parts = match Parts::parse(hash) {
        Ok(parts) => parts,
        Err(_) => {
            return Err(());
        },
    };
    let header = parts.header;
    let (nx, ny) = header.used_components();
    let (lx, ly) = header.recorded_components();
    let (w, h) = decoded_sides(lx, ly);
    proof {
        lemma_decoded_size(lx as int, ly as int);
        lemma_small_triangles();
        lemma_triangle_first(nx as int, ny as int);
    }
    let count_x: usize = if header.has_alpha && nx < 5 {
        5
    } else {
        nx
    };
    let count_y: usize = if header.has_alpha && ny < 5 {
        5
    } else {
        ny
    };
    let table_x = cos_tables::<A>(count_x, w);
    let table_y = cos_tables::<A>(count_y, h);
    let plan = make_plan::<A>(Ghost(hash@), &parts, nx, ny, &table_x, w);
    let one = A::from_int(1);
    let mut rgba: Vec<u8> = Vec::new();
    let mut y: usize = 0;
    while y < h
        invariant
            y <= h,
            is_complete(hash@),
            header == header_of(hash@),
            (nx as int, ny as int) == header.components(),
            (w as int, h as int) == size_of_hash(hash@),
            plan_shape(hash@, plan),
            ny <= table_y@.len(),
            3 <= table_y@.len(),
            header.has_alpha ==> 5 <= table_y@.len(),
            triangle(3, 3).len() == 6,
            triangle(5, 5).len() == 15,
            triangle(nx as int, ny as int).len() >= 1,
            has_shape(table_y@, table_y@.len() as int, h as int),
            forall|m: Model<A::Num>| #[trigger]
                describes::<A>(m) ==> {
                    &&& is_plan(m, hash@, plan)
                    &&& is_cos_table(m, table_y@, table_y@.len() as int, h as int)
                    &&& one == m.from_int(1)
                },
            rgba@.len() == 4 * (w * y),
            forall|m: Model<A::Num>| #[trigger]
                describes::<A>(m) ==> rgba@ == decoded_rgba(m, hash@).take(4 * (w * y)),
        decreases h - y,
    {
        let l = sample_prepared::<A>(&plan.l, &table_y, w, h, y);
        let p = sample_prepared::<A>(&plan.p, &table_y, w, h, y);
        let q = sample_prepared::<A>(&plan.q, &table_y, w, h, y);
        let a = match &plan.a {
            Some(prepared) => sample_prepared::<A>(prepared, &table_y, w, h, y),
            None => repeat(one, w),
        };
        let ghost before = rgba@;
        append_row::<A>(&l, &p, &q, &a, &mut rgba);
        assert(4 * (w * (y + 1)) == 4 * (w * y) + 4 * w) by (nonlinear_arith);
        assert forall|m: Model<A::Num>| #[trigger] describes::<A>(m) implies rgba@ == decoded_rgba(
            m,
            hash@,
        ).take(4 * (w * (y + 1))) by {
            assert(is_plan(m, hash@, plan));
            assert forall|x: int| 0 <= x < w implies {
                &&& #[trigger] l@[x] == pixel_l(m, hash@, x, y as int)
                &&& p@[x] == pixel_p(m, hash@, x, y as int)
                &&& q@[x] == pixel_q(m, hash@, x, y as int)
                &&& a@[x] == pixel_a(m, hash@, x, y as int)
            } by {}
            lemma_append_row(m, hash@, y as int, l@, p@, q@, a@);
        }
        y += 1;
    }
    assert(4 * (w * h) == w * h * 4) by (nonlinear_arith);
    assert forall|m: Model<A::Num>| #[trigger] describes::<A>(m) implies rgba@ == decoded_rgba(
        m,
        hash@,
    ) by {
        assert(decoded_rgba(m, hash@).take(4 * (w * h)) =~= decoded_rgba(m, hash@));
    }
    Ok((w, h, rgba))
}

/// The average colour of the image that a hash stands for: red, green, blue and alpha, each from
/// zero to one. Fails where the hash is too short to hold it.
pub fn thumb_hash_to_average_rgba<A: Arithmetic>(hash: &[u8]) -> (r: Result<
    (A::Num, A::Num, A::Num, A::Num),
    (),
>)
    ensures
        r is Ok <==> has_averages(hash@),
        r matches Ok(color) ==> forall|m: Model<A::Num>| #[trigger]
            describes::<A>(m) ==> color == average_rgba(m, hash@),
{
    let (header, alpha) = match parse_averages(hash) {
        Ok(averages) => averages,
        Err(_) => {
            return Err(());
        },
    };
    let l = ratio::<A>(header.l_dc, 63);
    let p = read_signed::<A>(header.p_dc);
    let q = read_signed::<A>(header.q_dc);
    let a = match alpha {
        Some((dc, _)) => ratio::<A>(dc as u32, 15),
        None => A::from_int(1),
    };
    let rgb = convert_lpq::<A>(l, p, q);
    Ok((clamp_unit::<A>(rgb.r), clamp_unit::<A>(rgb.g), clamp_unit::<A>(rgb.b), a))
}

/// The average red, green, blue and alpha values of `hash`.
pub open spec fn average_rgba<N>(m: Model<N>, hash: Seq<u8>) -> (N, N, N, N) {
    let header = header_of(hash);
    let rgb = to_rgb(
        m,
        average_l(m, header),
        signed_average(m, header.p_dc as int),
        signed_average(m, header.q_dc as int),
    );
    (clamped(m, rgb.r), clamped(m, rgb.g), clamped(m, rgb.b), average_a(m, hash))
}

/// The quotient of the numbers of luminance components along the width and the height that `hash`
/// records.
pub open spec fn aspect_ratio<N>(m: Model<N>, hash: Seq<u8>) -> N {
    m.ratio(header_of(hash).aspect().0, header_of(hash).aspect().1)
}

/// The approximate quotient of the width and the height of the image that a hash stands for.
/// Fails where the hash is too short to hold it, and where it records a height of zero.
pub fn thumb_hash_to_approximate_aspect_ratio<A: Arithmetic>(hash: &[u8]) -> (r: Result<
    A::Num,
    (),
>)
    ensures
        r is Ok <==> hash@.len() >= 5 && header_of(hash@).aspect().1 != 0,
        r matches Ok(quotient) ==> forall|m: Model<A::Num>| #[trigger]
            describes::<A>(m) ==> quotient == aspect_ratio(m, hash@),
{
    let header = match Header::parse(hash) {
        Ok(header) => header,
        Err(_) => {
            return Err(());
        },
    };
    let (lx, ly) = header.recorded_components();
    if ly == 0 {
        return Err(());
    }
    Ok(ratio::<A>(lx as u32, ly as u32))
}

} // verus!
