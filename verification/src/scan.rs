//! From the bytes of a picture to the dot on its scan line.
//!
//! A picture is stored bottom row first, each row as three bytes per pixel:
//! blue, green, red. A header of [`HEADER_LENGTH`] bytes goes before the
//! rows. The scan line is a band of a few rows, averaged column by column.

use crate::bucket::Bucket;
use crate::cluster::{cluster, clustered};
use crate::color::SimpleColor;
use crate::locate::{color_positions, find_dot, in_stable_order, is_dot, marks};
use vstd::prelude::*;

verus! {

/// The length of the header that goes before the rows of a picture.
pub const HEADER_LENGTH: usize = 54;

/// Where the byte of a channel of the pixel in column `i` of row `j`
/// stands, in rows of `width` pixels. Channel 0 is blue, 1 green, 2 red.
pub open spec fn channel_index(width: int, i: int, j: int, channel: int) -> int {
    3 * (j * width + i) + channel
}

/// The pixel in column `i` of row `j`, as red, green and blue.
pub open spec fn pixel(image: Seq<u8>, width: int, i: int, j: int) -> (u32, u32, u32) {
    (
        image[channel_index(width, i, j, 2)] as u32,
        image[channel_index(width, i, j, 1)] as u32,
        image[channel_index(width, i, j, 0)] as u32,
    )
}

/// The sum of one channel over the first `rows` rows of column `i`.
pub open spec fn channel_sum(image: Seq<u8>, width: int, i: int, rows: int, channel: int) -> int
    decreases rows,
{
    if rows <= 0 {
        0
    } else {
        channel_sum(image, width, i, rows - 1, channel) + image[channel_index(
            width,
            i,
            rows - 1,
            channel,
        )]
    }
}

/// The mean of column `i` over `height` rows, each channel rounded down.
pub open spec fn column_average(image: Seq<u8>, width: int, height: int, i: int) -> (
    u32,
    u32,
    u32,
) {
    (
        (channel_sum(image, width, i, height, 2) / height) as u32,
        (channel_sum(image, width, i, height, 1) / height) as u32,
        (channel_sum(image, width, i, height, 0) / height) as u32,
    )
}

/// The class of every column of a band of `height` rows.
pub open spec fn column_colors(image: Seq<u8>, width: int, height: int) -> Seq<SimpleColor> {
    Seq::new(width as nat, |i: int| SimpleColor::classify(column_average(image, width, height, i)))
}

/// A two-byte number of the header, low byte first.
pub open spec fn header_field(header: Seq<u8>, at: int) -> int {
    header[at] + 256 * header[at + 1]
}

/// Where the band begins in the file: behind the header and the rows below
/// the band. The band's topmost row lies `top` rows below the top of the
/// picture, so `height - top - rows` rows lie below the band.
pub open spec fn band_start(width: int, height: int, top: int, rows: int) -> int {
    HEADER_LENGTH + (height - top - rows) * width * 3
}

/// Every channel of a pixel of the band has its byte in the band.
proof fn lemma_channel_in_band(width: int, height: int, i: int, j: int, channel: int)
    by (nonlinear_arith)
    requires
        0 <= i < width,
        0 <= j < height,
        0 <= channel < 3,
    ensures
        0 <= j * width + i < width * height,
        0 <= channel_index(width, i, j, channel) < 3 * width * height,
{
}

/// Reads the pixel in column `i` of row `j` as red, green and blue.
pub fn bmp_pixel(image: &[u8], width: u32, i: u32, j: u32) -> (result: (u32, u32, u32))
    requires
        channel_index(width as int, i as int, j as int, 2) < image.len(),
    ensures
        result == pixel(image@, width as int, i as int, j as int),
{
    assert(0 <= j * width + i <= 0xffff_ffff * 0xffff_ffff + 0xffff_ffff) by (nonlinear_arith)
        requires
            0 <= j <= 0xffff_ffff,
            0 <= width <= 0xffff_ffff,
            0 <= i <= 0xffff_ffff,
    ;
    let at: u64 = j as u64 * width as u64 + i as u64;
    let blue: usize = (3 * at) as usize;
    (image[blue + 2] as u32, image[blue + 1] as u32, image[blue] as u32)
}

/// The width and the height of the picture that a header describes, or
/// nothing where the header is cut short.
pub fn image_size(header: &[u8]) -> (result: Option<(u32, u32)>)
    ensures
        result is Some <==> header.len() >= HEADER_LENGTH,
        result matches Some((width, height)) ==> width == header_field(header@, 18) && height
            == header_field(header@, 22),
{
    if header.len() < HEADER_LENGTH {
        return None;
    }
    let width = header[19] as u32 * 256 + header[18] as u32;
    let height = header[23] as u32 * 256 + header[22] as u32;
    Some((width, height))
}

/// Where in the file the band of `rows` rows begins whose topmost row lies
/// `top` rows below the top of the picture. Nothing where the picture is
/// too low for the band, or the place is beyond what can be addressed.
pub fn scan_line_offset(width: u32, height: u32, top: u32, rows: u32) -> (result: Option<u64>)
    ensures
        result is Some <==> top + rows <= height && band_start(
            width as int,
            height as int,
            top as int,
            rows as int,
        ) <= u64::MAX,
        result matches Some(at) ==> at == band_start(
            width as int,
            height as int,
            top as int,
            rows as int,
        ),
{
    if top as u64 + rows as u64 > height as u64 {
        return None;
    }
    let below: u128 = (height - top - rows) as u128;
    assert(below * width <= 0xffff_ffff * 0xffff_ffff) by (nonlinear_arith)
        requires
            0 <= below <= 0xffff_ffff,
            0 <= width <= 0xffff_ffff,
    ;
    let at: u128 = HEADER_LENGTH as u128 + below * width as u128 * 3;
    if at > u64::MAX as u128 {
        None
    } else {
        Some(at as u64)
    }
}

/// Averages the band column by column.
pub fn column_averages(image: &[u8], width: u32, height: u32) -> (result: Vec<(u32, u32, u32)>)
    requires
        height > 0,
        3 * width * height <= image.len(),
    ensures
        result.len() == width,
        forall|i: int|
            0 <= i < width ==> #[trigger] result[i] == column_average(
                image@,
                width as int,
                height as int,
                i,
            ),
{
    let mut result: Vec<(u32, u32, u32)> = Vec::new();
    let mut i: u32 = 0;
    while i < width
        invariant
            i <= width,
            height > 0,
            3 * width * height <= image.len(),
            result.len() == i,
            forall|k: int|
                0 <= k < i ==> #[trigger] result[k] == column_average(
                    image@,
                    width as int,
                    height as int,
                    k,
                ),
        decreases width - i,
    {
        let mut red: u64 = 0;
        let mut green: u64 = 0;
        let mut blue: u64 = 0;
        let mut j: u32 = 0;
        while j < height
            invariant
                j <= height,
                i < width,
                3 * width * height <= image.len(),
                red == channel_sum(image@, width as int, i as int, j as int, 2),
                green == channel_sum(image@, width as int, i as int, j as int, 1),
                blue == channel_sum(image@, width as int, i as int, j as int, 0),
                red <= 255 * j,
                green <= 255 * j,
                blue <= 255 * j,
            decreases height - j,
        {
            proof {
                lemma_channel_in_band(width as int, height as int, i as int, j as int, 2);
            }
            let color = bmp_pixel(image, width, i, j);
            red = red + color.0 as u64;
            green = green + color.1 as u64;
            blue = blue + color.2 as u64;
            j = j + 1;
        }
        let rows = height as u64;
        assert(red / rows <= 255 && green / rows <= 255 && blue / rows <= 255)
            by (nonlinear_arith)
            requires
                rows > 0,
                red <= 255 * rows,
                green <= 255 * rows,
                blue <= 255 * rows,
        ;
        result.push(((red / rows) as u32, (green / rows) as u32, (blue / rows) as u32));
        i = i + 1;
    }
    result
}

/// Classifies every averaged column.
pub fn classify_columns(averages: &Vec<(u32, u32, u32)>) -> (result: Vec<SimpleColor>)
    ensures
        result.len() == averages.len(),
        forall|i: int|
            0 <= i < averages.len() ==> #[trigger] result[i] == SimpleColor::classify(averages[i]),
{
    let mut result: Vec<SimpleColor> = Vec::new();
    let mut i: usize = 0;
    while i < averages.len()
        invariant
            i <= averages.len(),
            result.len() == i,
            forall|k: int|
                0 <= k < i ==> #[trigger] result[k] == SimpleColor::classify(averages[k]),
        decreases averages.len() - i,
    {
        result.push(SimpleColor::from_color(averages[i]));
        i = i + 1;
    }
    result
}

/// What `find_dot` says of marks in order holds of `result`.
pub open spec fn dot_among(sorted: Seq<(u32, SimpleColor)>, result: Option<u32>) -> bool {
    match result {
        Some(p) => exists|i: int| is_dot(sorted, i) && (#[trigger] sorted[i]).0 == p,
        None => forall|i: int|
            0 <= i < sorted.len() ==> (#[trigger] sorted[i]).1 == SimpleColor::Other,
    }
}

/// `result` is the position of the dot on the scan line with these column
/// classes: the columns cluster into some regions, whose marks in stable
/// order of position have the dot there, or have none.
pub open spec fn dot_on_line(
    colors: Seq<SimpleColor>,
    bucket_width: int,
    result: Option<u32>,
) -> bool {
    exists|regions: Seq<Bucket>, sorted: Seq<(u32, SimpleColor)>|
        #![trigger clustered(colors, bucket_width, regions), in_stable_order(marks(regions), sorted)]
        {
            &&& clustered(colors, bucket_width, regions)
            &&& in_stable_order(marks(regions), sorted)
            &&& dot_among(sorted, result)
        }
}

/// Finds the dot in a band of `height` rows of `width` pixels: averages
/// the columns, classifies them, clusters them in blocks of `bucket_width`
/// and picks the dot among the regions.
pub fn detect_dot(image: &[u8], width: u32, height: u32, bucket_width: u32) -> (result: Option<
    u32,
>)
    requires
        height > 0,
        bucket_width > 0,
        3 * width * height <= image.len(),
    ensures
        dot_on_line(
            column_colors(image@, width as int, height as int),
            bucket_width as int,
            result,
        ),
{
    let averages = column_averages(image, width, height);
    let colors = classify_columns(&averages);
    proof {
        assert(colors@ =~= column_colors(image@, width as int, height as int));
    }
    let regions = cluster(&colors, bucket_width);
    let sorted = color_positions(&regions);
    let result = find_dot(&sorted);
    proof {
        assert(clustered(colors@, bucket_width as int, regions@) && in_stable_order(
            marks(regions@),
            sorted@,
        ) && dot_among(sorted@, result));
    }
    result
}

} // verus!
