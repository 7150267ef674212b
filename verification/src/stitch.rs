//! Putting band artifacts back together: in which order, and where each
//! lands in the picture.

use vstd::prelude::*;
use crate::artifact::{band_key, band_key_of};
use crate::raster::{
    blank, fits, overlaid, rgba_copy_from, rgba_dimensions, rgba_new, rgba_pixels, rgba_size,
    RgbaRaster,
};
use crate::screen::Screen;

verus! {

/// The band numbers read from a list of artifact names, name by name.
pub open spec fn keys_of(names: Seq<String>) -> Seq<u32> {
    Seq::new(names.len(), |i: int| band_key_of(names[i]@))
}

/// Whether the artifact listed at `a` is stitched before the one listed at
/// `b`: the one with the smaller band number goes first and, of two with the
/// same number, the one listed first.
pub open spec fn stitched_before(keys: Seq<u32>, a: int, b: int) -> bool {
    keys[a] < keys[b] || (keys[a] == keys[b] && a < b)
}

/// Whether `order` lists every position of `keys` once, each before all that
/// are stitched after it.
pub open spec fn is_stitch_order(keys: Seq<u32>, order: Seq<usize>) -> bool {
    &&& order.len() == keys.len()
    &&& forall|p: int| 0 <= p < order.len() ==> #[trigger] order[p] < keys.len()
    &&& forall|k: usize| k < keys.len() ==> #[trigger] order.contains(k)
    &&& forall|p: int, q: int|
        0 <= p < q < order.len() ==> stitched_before(
            keys,
            #[trigger] order[p] as int,
            #[trigger] order[q] as int,
        )
}

/// Puts artifacts in stitching order: by the band number in their names,
/// read as a number, and in listing order where two numbers are equal. The
/// result holds positions in `names`, first band first.
pub fn stitch_order(names: &Vec<String>) -> (order: Vec<usize>)
    ensures
        is_stitch_order(keys_of(names@), order@),
{
    let mut keys: Vec<u32> = Vec::new();
    let mut order: Vec<usize> = Vec::new();
    let mut i: usize = 0;
    while i < names.len()
        invariant
            i <= names.len(),
            keys@ == keys_of(names@).take(i as int),
            is_stitch_order(keys@, order@),
        decreases names.len() - i,
    {
        let key = band_key(names[i].as_str());
        let mut slot: usize = order.len();
        while slot > 0 && keys[order[slot - 1]] > key
            invariant
                slot <= order.len(),
                is_stitch_order(keys@, order@),
                forall|q: int| slot <= q < order.len() ==> keys[#[trigger] order[q] as int] > key,
            decreases slot,
        {
            slot = slot - 1;
        }
        let ghost old_keys = keys@;
        let ghost old_order = order@;
        keys.push(key);
        order.insert(slot, i);
        proof {
            assert(keys@ =~= keys_of(names@).take(i + 1));
            assert forall|k: usize| k < keys@.len() implies #[trigger] order@.contains(k) by {
                if k == i {
                    assert(order@[slot as int] == k);
                } else {
                    assert(old_order.contains(k));
                    let p = choose|p: int| 0 <= p < old_order.len() && old_order[p] == k;
                    if p < slot {
                        assert(order@[p] == k);
                    } else {
                        assert(order@[p + 1] == k);
                    }
                }
            }
            assert forall|p: int, q: int| 0 <= p < q < order@.len() implies stitched_before(
                keys@,
                #[trigger] order@[p] as int,
                #[trigger] order@[q] as int,
            ) by {
                let before = |at: int| if at < slot { at } else { at - 1 };
                if p != slot && q != slot {
                    assert(order@[p] == old_order[before(p)]);
                    assert(order@[q] == old_order[before(q)]);
                    assert(stitched_before(
                        old_keys,
                        old_order[before(p)] as int,
                        old_order[before(q)] as int,
                    ));
                } else if p == slot {
                    assert(order@[q] == old_order[q - 1]);
                } else {
                    assert(order@[p] == old_order[p]);
                    if slot > 0 && p < slot - 1 {
                        assert(stitched_before(
                            old_keys,
                            old_order[p] as int,
                            old_order[slot - 1] as int,
                        ));
                    }
                }
            }
        }
        i = i + 1;
    }
    assert(keys@ =~= keys_of(names@));
    order
}

/// The first `count` entries of two stitching orders of the same artifacts
/// are the same.
proof fn lemma_orders_agree(keys: Seq<u32>, first: Seq<usize>, second: Seq<usize>, count: int)
    requires
        is_stitch_order(keys, first),
        is_stitch_order(keys, second),
        0 <= count <= keys.len(),
    ensures
        first.take(count) == second.take(count),
    decreases count,
{
    if count > 0 {
        let at = count - 1;
        lemma_orders_agree(keys, first, second, at);
        assert forall|q: int| 0 <= q < at implies first[q] == second[q] by {
            assert(first.take(at)[q] == second.take(at)[q]);
        }
        let u = first[at];
        let v = second[at];
        if u != v {
            assert(second.contains(u));
            let r = choose|r: int| 0 <= r < second.len() && second[r] == u;
            assert(first.contains(v));
            let t = choose|t: int| 0 <= t < first.len() && first[t] == v;
            if r < at {
                assert(stitched_before(keys, first[r] as int, first[at] as int));
            } else if t < at {
                assert(stitched_before(keys, second[t] as int, second[at] as int));
            } else {
                assert(stitched_before(keys, second[at] as int, second[r] as int));
                assert(stitched_before(keys, first[at] as int, first[t] as int));
            }
        }
        assert(first.take(count) =~= first.take(at).push(u));
        assert(second.take(count) =~= second.take(at).push(v));
    }
}

/// A list of artifacts has one stitching order and no other.
pub proof fn lemma_stitch_order_unique(keys: Seq<u32>, first: Seq<usize>, second: Seq<usize>)
    requires
        is_stitch_order(keys, first),
        is_stitch_order(keys, second),
    ensures
        first == second,
{
    lemma_orders_agree(keys, first, second, keys.len() as int);
    assert(first.take(keys.len() as int) =~= first);
    assert(second.take(keys.len() as int) =~= second);
}

/// The row of the picture at which band `i` is placed: the rows of all
/// bands before it, whether they found room or not.
pub open spec fn offset_of(bands: Seq<RgbaRaster>, i: int) -> int
    decreases i,
{
    if i <= 0 {
        0
    } else {
        offset_of(bands, i - 1) + rgba_size(bands[i - 1]).1
    }
}

/// Whether band `i` lies inside a `width` by `height` picture at its offset.
pub open spec fn has_room(width: u32, height: u32, bands: Seq<RgbaRaster>, i: int) -> bool {
    fits((width, height), rgba_size(bands[i]), 0, offset_of(bands, i))
}

/// The pixels of a `width` by `height` picture after the first `count` bands
/// were placed on it, one below the other: a band that lies inside the
/// picture at its offset is copied there, one that does not is left out.
pub open spec fn stitched(width: u32, height: u32, bands: Seq<RgbaRaster>, count: int) -> Map<
    (int, int),
    Seq<u8>,
>
    decreases count,
{
    if count <= 0 {
        blank(width, height, 4)
    } else {
        let under = stitched(width, height, bands, count - 1);
        if has_room(width, height, bands, count - 1) {
            overlaid(
                under,
                rgba_pixels(bands[count - 1]),
                rgba_size(bands[count - 1]),
                0,
                offset_of(bands, count - 1),
            )
        } else {
            under
        }
    }
}

/// The band, among the first `count`, whose rows include row `y` of the
/// picture.
pub open spec fn band_at_row(bands: Seq<RgbaRaster>, count: int, y: int) -> Option<int>
    decreases count,
{
    if count <= 0 {
        None
    } else if offset_of(bands, count - 1) <= y < offset_of(bands, count) {
        Some(count - 1)
    } else {
        band_at_row(bands, count - 1, y)
    }
}

/// The color of the pixel `at` of the stitched picture, read off the bands:
/// the pixel of the band whose rows include it, if that band found room and
/// is wide enough, and transparent black otherwise.
pub open spec fn stitched_pixel(
    width: u32,
    height: u32,
    bands: Seq<RgbaRaster>,
    count: int,
    at: (int, int),
) -> Seq<u8> {
    match band_at_row(bands, count, at.1) {
        Some(i) => if has_room(width, height, bands, i) && at.0 < rgba_size(bands[i]).0 {
            rgba_pixels(bands[i])[(at.0, at.1 - offset_of(bands, i))]
        } else {
            Seq::new(4, |c: int| 0u8)
        },
        None => Seq::new(4, |c: int| 0u8),
    }
}

/// Stitches `bands`, in the order given, into one picture of `width` by
/// `height` pixels: each band goes below the one before it.
pub fn stitch(width: u32, height: u32, bands: &Vec<RgbaRaster>) -> (picture: RgbaRaster)
    requires
        4 * width * height <= isize::MAX,
    ensures
        rgba_size(picture) == (width, height),
        rgba_pixels(picture) == stitched(width, height, bands@, bands@.len() as int),
{
    let mut picture = rgba_new(width, height);
    let mut row: u32 = 0;
    let mut in_range: bool = true;
    let mut i: usize = 0;
    while i < bands.len()
        invariant
            i <= bands.len(),
            rgba_size(picture) == (width, height),
            rgba_pixels(picture) == stitched(width, height, bands@, i as int),
            in_range ==> row == offset_of(bands@, i as int),
            !in_range ==> offset_of(bands@, i as int) > u32::MAX,
        decreases bands.len() - i,
    {
        let (_, rows) = rgba_dimensions(&bands[i]);
        if in_range {
            let _ = rgba_copy_from(&mut picture, &bands[i], 0, row);
            if rows <= u32::MAX - row {
                row = row + rows;
            } else {
                in_range = false;
            }
        }
        i = i + 1;
    }
    picture
}

/// Bands lie one below the other: a band's rows end where the next band's
/// rows begin, so the band that `band_at_row` names is the only one whose
/// rows include `y`.
pub proof fn lemma_band_at_row(bands: Seq<RgbaRaster>, count: int, y: int)
    requires
        0 <= count,
    ensures
        0 <= offset_of(bands, count),
        match band_at_row(bands, count, y) {
            Some(i) => 0 <= i < count && offset_of(bands, i) <= y < offset_of(bands, i + 1)
                <= offset_of(bands, count),
            None => y < 0 || y >= offset_of(bands, count),
        },
    decreases count,
{
    if count > 0 {
        lemma_band_at_row(bands, count - 1, y);
    }
}

/// Where each pixel of the stitched picture comes from: the picture covers
/// exactly its `width` by `height` pixels, and each of them shows the pixel
/// of the band placed over it, or transparent black where no band was placed.
pub proof fn lemma_stitched(width: u32, height: u32, bands: Seq<RgbaRaster>, count: int)
    requires
        0 <= count,
    ensures
        stitched(width, height, bands, count).dom() == blank(width, height, 4).dom(),
        forall|at: (int, int)|
            0 <= at.0 < width && 0 <= at.1 < height ==> #[trigger] stitched(
                width,
                height,
                bands,
                count,
            )[at] == stitched_pixel(width, height, bands, count, at),
    decreases count,
{
    let whole = stitched(width, height, bands, count);
    if count > 0 {
        let under = stitched(width, height, bands, count - 1);
        let top = offset_of(bands, count - 1);
        lemma_stitched(width, height, bands, count - 1);
        assert(whole.dom() =~= under.dom());
        assert forall|at: (int, int)| 0 <= at.0 < width && 0 <= at.1 < height implies #[trigger] whole[at]
            == stitched_pixel(width, height, bands, count, at) by {
            lemma_band_at_row(bands, count - 1, at.1);
            assert(under.dom().contains(at));
            assert(under[at] == stitched_pixel(width, height, bands, count - 1, at));
            if top <= at.1 < offset_of(bands, count) {
                assert(band_at_row(bands, count, at.1) == Some(count - 1));
                assert(band_at_row(bands, count - 1, at.1) is None);
            } else {
                assert(band_at_row(bands, count, at.1) == band_at_row(bands, count - 1, at.1));
            }
        }
    }
}

/// A band that found room and is no wider than the picture shows in full
/// at its offset.
proof fn lemma_band_shows(
    width: u32,
    height: u32,
    bands: Seq<RgbaRaster>,
    i: int,
    x: int,
    y: int,
)
    requires
        0 <= i < bands.len(),
        has_room(width, height, bands, i),
        0 <= x < rgba_size(bands[i]).0,
        0 <= y < rgba_size(bands[i]).1,
    ensures
        stitched(width, height, bands, bands.len() as int)[(x, offset_of(bands, i) + y)]
            == rgba_pixels(bands[i])[(x, y)],
{
    let count = bands.len() as int;
    let row = offset_of(bands, i) + y;
    lemma_stitched(width, height, bands, count);
    lemma_offsets_grow(bands, 0, i);
    lemma_band_at_row(bands, count, row);
    lemma_offsets_grow(bands, i + 1, count);
    match band_at_row(bands, count, row) {
        Some(found) => {
            if found < i {
                lemma_offsets_grow(bands, found + 1, i);
            }
            if found > i {
                lemma_offsets_grow(bands, i + 1, found);
            }
        },
        None => {},
    }
    assert(stitched(width, height, bands, count)[(x, row)] == stitched_pixel(
        width,
        height,
        bands,
        count,
        (x, row),
    ));
}

/// Bands that are as wide as the picture and whose heights add up to its
/// height all find room, and the picture is the bands stacked: every pixel
/// of every band shows at the band's offset.
pub proof fn lemma_stitched_whole(width: u32, height: u32, bands: Seq<RgbaRaster>)
    requires
        forall|i: int| 0 <= i < bands.len() ==> (#[trigger] rgba_size(bands[i])).0 == width,
        offset_of(bands, bands.len() as int) == height,
    ensures
        forall|i: int| 0 <= i < bands.len() ==> #[trigger] has_room(width, height, bands, i),
        forall|i: int, x: int, y: int|
            0 <= i < bands.len() && 0 <= x < width && 0 <= y < rgba_size(bands[i]).1
                ==> #[trigger] stitched(width, height, bands, bands.len() as int)[(
                x,
                offset_of(bands, i) + y,
            )] == rgba_pixels(bands[i])[(x, y)],
{
    let count = bands.len() as int;
    assert forall|i: int| 0 <= i < bands.len() implies #[trigger] has_room(
        width,
        height,
        bands,
        i,
    ) by {
        lemma_offsets_grow(bands, i + 1, count);
        assert(rgba_size(bands[i]).0 == width);
    }
    assert forall|i: int, x: int, y: int|
        0 <= i < bands.len() && 0 <= x < width && 0 <= y < rgba_size(
            bands[i],
        ).1 implies #[trigger] stitched(width, height, bands, count)[(x, offset_of(bands, i) + y)]
        == rgba_pixels(bands[i])[(x, y)] by {
        assert(has_room(width, height, bands, i));
        assert(rgba_size(bands[i]).0 == width);
        lemma_band_shows(width, height, bands, i, x, y);
    }
}

/// A later band never starts above an earlier one.
proof fn lemma_offsets_grow(bands: Seq<RgbaRaster>, i: int, j: int)
    requires
        0 <= i <= j,
    ensures
        0 <= offset_of(bands, i) <= offset_of(bands, j),
    decreases j,
{
    if i < j {
        lemma_offsets_grow(bands, i, j - 1);
    } else {
        lemma_band_at_row(bands, i, 0);
    }
}

/// Whether `bands` are renderings of the `n` bands that `screen` is cut
/// into, in band order: band `i` is as wide as the screen and has a row for
/// each row of the cut's band `i`.
pub open spec fn renders_split(screen: Screen, n: int, bands: Seq<RgbaRaster>) -> bool {
    &&& bands.len() == n
    &&& forall|i: int|
        0 <= i < n ==> #[trigger] rgba_size(bands[i]) == (
            screen.res_width,
            screen.bands(n)[i].rows() as u32,
        )
}

/// In stitching order, the renderings of a split land where their bands were
/// cut from.
proof fn lemma_split_offsets(screen: Screen, n: int, bands: Seq<RgbaRaster>, i: int)
    requires
        1 <= n,
        renders_split(screen, n, bands),
        0 <= i <= n,
    ensures
        offset_of(bands, i) == (if i == n {
            screen.res_height as int
        } else {
            screen.bands(n)[i].row_start as int
        }),
    decreases i,
{
    if i > 0 {
        lemma_split_offsets(screen, n, bands, i - 1);
        screen.lemma_band(n, i - 1);
        assert(rgba_size(bands[i - 1]).1 == screen.bands(n)[i - 1].rows());
        if i < n {
            screen.lemma_band(n, i);
        }
    } else {
        screen.lemma_band(n, 0);
        screen.lemma_band_bounds(n);
    }
}

/// The rendering of band `i` of a split finds room in a picture of the
/// screen's resolution.
proof fn lemma_split_has_room(screen: Screen, n: int, bands: Seq<RgbaRaster>, i: int)
    requires
        1 <= n,
        renders_split(screen, n, bands),
        0 <= i < n,
    ensures
        has_room(screen.res_width, screen.res_height, bands, i),
        offset_of(bands, i) == screen.bands(n)[i].row_start,
        rgba_size(bands[i]) == (screen.res_width, screen.bands(n)[i].rows() as u32),
        rgba_size(bands[i]).1 == screen.bands(n)[i].rows(),
{
    lemma_split_offsets(screen, n, bands, i);
    screen.lemma_band(n, i);
    assert(rgba_size(bands[i]) == (screen.res_width, screen.bands(n)[i].rows() as u32));
}

/// Splitting and stitching undo each other: when a screen is cut into
/// `n >= 1` bands and the bands, rendered apart, are stitched in band order
/// into a picture of the screen's resolution, every band finds room and every
/// pixel of the picture is the pixel that the band holding its row has
/// there.
pub proof fn lemma_split_then_stitch(screen: Screen, n: int, bands: Seq<RgbaRaster>)
    requires
        1 <= n,
        renders_split(screen, n, bands),
    ensures
        forall|i: int|
            0 <= i < n ==> #[trigger] has_room(screen.res_width, screen.res_height, bands, i),
        forall|x: int, y: int|
            0 <= x < screen.res_width && 0 <= y < screen.res_height ==> #[trigger] stitched(
                screen.res_width,
                screen.res_height,
                bands,
                n,
            )[(x, y)] == rgba_pixels(bands[screen.band_of_row(n, y)])[(
                x,
                y - screen.bands(n)[screen.band_of_row(n, y)].row_start,
            )],
{
    let width = screen.res_width;
    let height = screen.res_height;
    assert forall|i: int| 0 <= i < n implies #[trigger] has_room(width, height, bands, i) by {
        lemma_split_has_room(screen, n, bands, i);
    }
    assert forall|x: int, y: int| 0 <= x < width && 0 <= y < height implies #[trigger] stitched(
        width,
        height,
        bands,
        n,
    )[(x, y)] == rgba_pixels(bands[screen.band_of_row(n, y)])[(
        x,
        y - screen.bands(n)[screen.band_of_row(n, y)].row_start,
    )] by {
        let i = screen.band_of_row(n, y);
        screen.lemma_row_in_band(n, y);
        lemma_split_has_room(screen, n, bands, i);
        lemma_band_shows(width, height, bands, i, x, y - screen.bands(n)[i].row_start);
    }
}

} // verus!
