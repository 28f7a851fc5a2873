use vstd::prelude::*;

verus! {

#[verifier::external_type_specification]
#[verifier::external_body]
pub struct ExThreadRng(rand::rngs::ThreadRng);

/// `rand::thread_rng`: a handle to the random number generator of the
/// current thread. Nothing is claimed of it.
#[verifier::external_body]
fn thread_rng() -> (rng: rand::rngs::ThreadRng) {
    rand::thread_rng()
}

/// `rand::seq::SliceRandom::shuffle` on the indexes: the generator swaps
/// elements in place, so the indexes come back in some order, each as often
/// as before. Which order comes back depends on the generator.
#[verifier::external_body]
fn shuffle_indexes(indexes: &mut Vec<usize>, rng: &mut rand::rngs::ThreadRng)
    ensures
        final(indexes)@.to_multiset() == old(indexes)@.to_multiset(),
{
    rand::seq::SliceRandom::shuffle(indexes.as_mut_slice(), rng)
}

/// The alpha channel of an opaque ARGB pixel.
pub const ALPHA_BIT_MASK: u32 = 0xFF00_0000u32;

/// An order in which to render `num_pixels` pixels: every pixel index below
/// `num_pixels` comes exactly once.
pub open spec fn visits_each_pixel_once(order: Seq<usize>, num_pixels: nat) -> bool {
    &&& order.len() == num_pixels
    &&& order.no_duplicates()
    &&& forall|i: int| 0 <= i < order.len() ==> #[trigger] order[i] < num_pixels
    &&& forall|p: usize| p < num_pixels ==> #[trigger] order.contains(p)
}

/// The pixel indexes of a `width` by `height` image, in row order, or in a
/// random order when `shuffle` is set (which spreads the work evenly and lets
/// a progressive display show the whole image early). Every pixel comes
/// exactly once either way.
pub fn render_order(width: usize, height: usize, shuffle: bool) -> (order: Vec<usize>)
    requires
        width * height <= usize::MAX,
    ensures
        visits_each_pixel_once(order@, (width * height) as nat),
        !shuffle ==> forall|i: int| 0 <= i < order@.len() ==> #[trigger] order@[i] == i,
{
    let num_pixels: usize = width * height;
    let mut order: Vec<usize> = Vec::new();
    let mut i: usize = 0;
    while i < num_pixels
        invariant
            i <= num_pixels,
            order@.len() == i,
            forall|k: int| 0 <= k < i ==> #[trigger] order@[k] == k,
        decreases num_pixels - i,
    {
        order.push(i);
        i = i + 1;
    }
    proof {
        assert forall|p: usize| p < num_pixels implies #[trigger] order@.contains(p) by {
            assert(order@[p as int] == p);
        }
        assert(order@.no_duplicates());
    }
    if shuffle {
        let ghost before = order@;
        let mut rng = thread_rng();
        shuffle_indexes(&mut order, &mut rng);
        proof {
            broadcast use vstd::seq_lib::group_to_multiset_ensures;

            assert(order@.len() == order@.to_multiset().len());
            assert(before.len() == before.to_multiset().len());
            before.lemma_multiset_has_no_duplicates();
            assert forall|x: usize| order@.to_multiset().contains(x) implies order@.to_multiset().count(x) == 1 by {
            }
            order@.lemma_multiset_has_no_duplicates_conv();
            assert forall|p: usize| p < num_pixels implies #[trigger] order@.contains(p) by {
                assert(before.contains(p));
                assert(before.to_multiset().count(p) > 0);
            }
            assert forall|k: int| 0 <= k < order@.len() implies #[trigger] order@[k] < num_pixels by {
                let x = order@[k];
                assert(order@.contains(x));
                assert(order@.to_multiset().count(x) > 0);
                assert(before.contains(x));
            }
        }
    }
    order
}

/// Whether the four RGBA bytes of pixel `p` in `buffer` hold its colour,
/// fully opaque.
pub open spec fn pixel_written(buffer: Seq<u8>, colors: Seq<(u8, u8, u8)>, p: int) -> bool {
    &&& buffer[4 * p] == colors[p].0
    &&& buffer[4 * p + 1] == colors[p].1
    &&& buffer[4 * p + 2] == colors[p].2
    &&& buffer[4 * p + 3] == 255
}

/// The RGBA bytes of an image whose pixel `p` has colour `colors[p]`, filled
/// pixel by pixel in render `order`, each pixel fully opaque. Since the order
/// visits every pixel once, the bytes do not depend on it.
pub fn encode_rgba(order: &Vec<usize>, colors: &Vec<(u8, u8, u8)>) -> (buffer: Vec<u8>)
    requires
        visits_each_pixel_once(order@, colors@.len()),
        colors@.len() * 4 <= usize::MAX,
    ensures
        buffer@.len() == colors@.len() * 4,
        forall|p: int| 0 <= p < colors@.len() ==> #[trigger] pixel_written(buffer@, colors@, p),
{
    let num_pixels = colors.len();
    let mut buffer: Vec<u8> = vec![0u8; num_pixels * 4];
    let mut j: usize = 0;
    while j < order.len()
        invariant
            visits_each_pixel_once(order@, colors@.len()),
            num_pixels == colors@.len(),
            num_pixels * 4 <= usize::MAX,
            j <= order@.len(),
            buffer@.len() == num_pixels * 4,
            forall|k: int|
                0 <= k < j ==> #[trigger] pixel_written(buffer@, colors@, order@[k] as int),
        decreases order@.len() - j,
    {
        let p = order[j];
        assert(p < num_pixels);
        let color = colors[p];
        let base = 4 * p;
        let ghost before = buffer@;
        buffer.set(base, color.0);
        buffer.set(base + 1, color.1);
        buffer.set(base + 2, color.2);
        buffer.set(base + 3, 255);
        proof {
            assert forall|k: int| 0 <= k < j + 1 implies #[trigger] pixel_written(
                buffer@,
                colors@,
                order@[k] as int,
            ) by {
                if k < j {
                    assert(order@[k] != p);
                    assert(pixel_written(before, colors@, order@[k] as int));
                }
            }
        }
        j = j + 1;
    }
    proof {
        assert forall|p: int| 0 <= p < colors@.len() implies #[trigger] pixel_written(
            buffer@,
            colors@,
            p,
        ) by {
            assert(order@.contains(p as usize));
            let k = choose|k: int| 0 <= k < order@.len() && order@[k] == p as usize;
            assert(pixel_written(buffer@, colors@, order@[k] as int));
        }
    }
    buffer
}

/// The image bytes do not depend on the render order: any two orders that
/// visit every pixel once give the same bytes.
pub proof fn lemma_encoding_ignores_order(
    colors: Seq<(u8, u8, u8)>,
    first: Seq<u8>,
    second: Seq<u8>,
)
    requires
        first.len() == colors.len() * 4,
        second.len() == colors.len() * 4,
        forall|p: int| 0 <= p < colors.len() ==> #[trigger] pixel_written(first, colors, p),
        forall|p: int| 0 <= p < colors.len() ==> #[trigger] pixel_written(second, colors, p),
    ensures
        first == second,
{
    assert forall|i: int| 0 <= i < first.len() implies #[trigger] first[i] == second[i] by {
        let p = i / 4;
        assert(pixel_written(first, colors, p));
        assert(pixel_written(second, colors, p));
    }
    assert(first =~= second);
}

/// The column and row of pixel `index` in an image `width` pixels wide and
/// `height` pixels high, pixels numbered row by row.
pub fn pixel_position(index: usize, width: usize, height: usize) -> (position: (usize, usize))
    requires
        index < width * height,
    ensures
        position.0 == index % width,
        position.1 == index / width,
        position.0 < width,
        position.1 < height,
        position.1 * width + position.0 == index,
{
    proof {
        assert(width > 0) by (nonlinear_arith)
            requires
                index < width * height,
        ;
        vstd::arithmetic::div_mod::lemma_fundamental_div_mod(index as int, width as int);
        assert(index / width < height) by (nonlinear_arith)
            requires
                index < width * height,
                width > 0,
                index == width * (index / width) + index % width,
                0 <= index % width,
        ;
        assert((index / width) * width == width * (index / width)) by (nonlinear_arith);
    }
    (index % width, index / width)
}

/// Packs three 8-bit channels into an opaque ARGB pixel: alpha in the top
/// byte, then red, green and blue. Channels above 255 spill into the bits of
/// the channels above them, as the bitwise formula has it.
pub fn to_argb_u32(r: u32, g: u32, b: u32) -> (argb: u32)
    ensures
        argb == ALPHA_BIT_MASK | r << 16 | g << 8 | b,
        r <= 255 && g <= 255 && b <= 255 ==> argb == 0xFF00_0000 + r * 0x1_0000 + g * 0x100 + b,
{
    proof {
        assert(r <= 255 && g <= 255 && b <= 255 ==> (0xFF00_0000u32 | r << 16 | g << 8 | b)
            == 0xFF00_0000 + r * 0x1_0000 + g * 0x100 + b) by (bit_vector);
    }
    ALPHA_BIT_MASK | r << 16 | g << 8 | b
}

/// Packs four 8-bit channels into an ARGB pixel: alpha in the top byte, then
/// red, green and blue.
pub fn pack_argb(a: u8, r: u8, g: u8, b: u8) -> (argb: u32)
    ensures
        argb == a * 0x100_0000 + r * 0x1_0000 + g * 0x100 + b,
{
    let (a, r, g, b) = (a as u32, r as u32, g as u32, b as u32);
    proof {
        assert(a <= 255 && r <= 255 && g <= 255 && b <= 255 ==> (a << 24 | r << 16 | g << 8 | b)
            == a * 0x100_0000 + r * 0x1_0000 + g * 0x100 + b) by (bit_vector);
    }
    a << 24 | r << 16 | g << 8 | b
}

/// Unpacking an ARGB pixel gives back the channels it was packed from.
pub proof fn lemma_argb_channels_roundtrip(a: u8, r: u8, g: u8, b: u8, argb: u32)
    requires
        argb == a * 0x100_0000 + r * 0x1_0000 + g * 0x100 + b,
    ensures
        argb >> 24 == a,
        (argb >> 16) & 0xff == r,
        (argb >> 8) & 0xff == g,
        argb & 0xff == b,
{
    let (a, r, g, b) = (a as u32, r as u32, g as u32, b as u32);
    assert(a <= 255 && r <= 255 && g <= 255 && b <= 255 && argb == a * 0x100_0000 + r * 0x1_0000
        + g * 0x100 + b ==> {
        &&& argb >> 24 == a
        &&& (argb >> 16) & 0xff == r
        &&& (argb >> 8) & 0xff == g
        &&& argb & 0xff == b
    }) by (bit_vector);
}

} // verus!
