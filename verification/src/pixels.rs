//! Decoded images, their checksum and the bounding box of their foreground.

use vstd::prelude::*;
use vstd::arithmetic::div_mod::lemma_add_mod_noop;
use vstd::arithmetic::div_mod::lemma_small_mod;
use crate::border::BorderBox;
use crate::hex::lower_hex;
use crate::hex::to_lower_hex;
use crate::options::Options;

verus! {

/// One pixel: red, green, blue and alpha samples of eight bits each.
#[derive(Clone, Copy, Debug, PartialEq, Eq, Structural)]
pub struct Rgba {
    pub red: u8,
    pub green: u8,
    pub blue: u8,
    pub alpha: u8,
}

impl Rgba {
    /// What the pixel adds to the checksum: its four samples as the digits
    /// of a number in base 256, red the least significant.
    pub open spec fn weight(self) -> nat {
        (self.red + self.green * 256 + self.blue * 65536 + self.alpha * 16777216) as nat
    }

    /// The pixel's contribution to the checksum.
    pub fn checksum_weight(&self) -> (weight: u64)
        ensures
            weight == self.weight(),
    {
        self.red as u64 + self.green as u64 * 256 + self.blue as u64 * 65536 + self.alpha as u64
            * 16777216
    }
}

/// A decoded image as a value: its size and its pixels in row-major order.
pub struct Raster {
    pub width: u32,
    pub height: u32,
    pub pixels: Seq<Rgba>,
}

impl Raster {
    /// The pixel in column `x` of row `y`.
    pub open spec fn at(self, x: int, y: int) -> Rgba
        recommends
            0 <= x < self.width,
            0 <= y < self.height,
    {
        self.pixels[y * self.width + x]
    }

    /// Column `x` of row `y` holds a pixel whose alpha is at or above the
    /// threshold.
    pub open spec fn is_foreground(self, x: int, y: int, background_alpha: u8) -> bool {
        &&& 0 <= x < self.width
        &&& 0 <= y < self.height
        &&& self.at(x, y).alpha >= background_alpha
    }

    /// Column `x` holds a foreground pixel.
    pub open spec fn column_has_foreground(self, x: int, background_alpha: u8) -> bool {
        exists|y: int| self.is_foreground(x, y, background_alpha)
    }

    /// Row `y` holds a foreground pixel.
    pub open spec fn row_has_foreground(self, y: int, background_alpha: u8) -> bool {
        exists|x: int| self.is_foreground(x, y, background_alpha)
    }

    /// The image has at least one foreground pixel.
    pub open spec fn has_foreground(self, background_alpha: u8) -> bool {
        exists|x: int, y: int| self.is_foreground(x, y, background_alpha)
    }

    /// `b` is the tight bounding box of the foreground: every foreground
    /// pixel lies inside it, and each of its four edges holds one.
    pub open spec fn is_foreground_box(self, background_alpha: u8, b: BorderBox) -> bool {
        &&& forall|x: int, y: int| #[trigger]
            self.is_foreground(x, y, background_alpha) ==> b.left <= x <= b.right && b.top <= y
                <= b.bottom
        &&& self.column_has_foreground(b.left as int, background_alpha)
        &&& self.column_has_foreground(b.right as int, background_alpha)
        &&& self.row_has_foreground(b.top as int, background_alpha)
        &&& self.row_has_foreground(b.bottom as int, background_alpha)
    }

    /// The tight bounding box of the foreground pixels; there is none for an
    /// image without foreground.
    pub open spec fn foreground_box(self, background_alpha: u8) -> Option<BorderBox> {
        if self.has_foreground(background_alpha) {
            Some(choose|b: BorderBox| self.is_foreground_box(background_alpha, b))
        } else {
            None
        }
    }

    /// The box that has not been grown around any pixel yet: its left and top
    /// edges lie beyond the image, its right and bottom edges at zero.
    pub open spec fn inverted_box(self) -> BorderBox {
        BorderBox { left: self.width, right: 0, top: self.height, bottom: 0 }
    }

    /// The box as the scan leaves it: the foreground's bounding box, or the
    /// inverted box where the image has no foreground.
    pub open spec fn tracked_box(self, background_alpha: u8) -> BorderBox {
        match self.foreground_box(background_alpha) {
            Some(b) => b,
            None => self.inverted_box(),
        }
    }

}

/// The sum of the weights of all pixels.
pub open spec fn weight_sum(pixels: Seq<Rgba>) -> nat
    decreases pixels.len(),
{
    if pixels.len() == 0 {
        0
    } else {
        weight_sum(pixels.drop_last()) + pixels.last().weight()
    }
}

/// The checksum of a pixel stream: the sum of the pixels' weights, reduced
/// modulo 2^64.
pub open spec fn checksum(pixels: Seq<Rgba>) -> u64 {
    (weight_sum(pixels) % 0x1_0000_0000_0000_0000) as u64
}

/// The checksum as it is recorded: in lowercase hexadecimal.
pub open spec fn checksum_text(pixels: Seq<Rgba>) -> Seq<char> {
    lower_hex(checksum(pixels) as nat)
}


/// A decoded image: `width` by `height` pixels, kept in row-major order.
#[derive(Debug)]
pub struct PixelGrid {
    width: u32,
    height: u32,
    pixels: Vec<Rgba>,
}

impl View for PixelGrid {
    type V = Raster;

    closed spec fn view(&self) -> Raster {
        Raster { width: self.width, height: self.height, pixels: self.pixels@ }
    }
}

impl PixelGrid {
    #[verifier::type_invariant]
    spec fn holds_every_pixel(&self) -> bool {
        self.pixels@.len() == self.width * self.height
    }

    /// Makes an image of `width` by `height` pixels from its pixels in
    /// row-major order; there is none unless the number of pixels is
    /// `width * height`.
    pub fn new(width: u32, height: u32, pixels: Vec<Rgba>) -> (grid: Option<PixelGrid>)
        ensures
            grid is Some <==> pixels@.len() == width * height,
            grid matches Some(g) ==> g@ == (Raster { width, height, pixels: pixels@ }),
    {
        assert(width * height <= u64::MAX) by (nonlinear_arith)
            requires
                width <= u32::MAX,
                height <= u32::MAX,
        ;
        let expected: u64 = width as u64 * height as u64;
        if pixels.len() as u64 == expected {
            Some(PixelGrid { width, height, pixels })
        } else {
            None
        }
    }

    /// The width and the height of the image.
    pub fn dimensions(&self) -> (size: (u32, u32))
        ensures
            size.0 == self@.width,
            size.1 == self@.height,
            self@.pixels.len() == self@.width * self@.height,
    {
        proof {
            use_type_invariant(self);
        }
        (self.width, self.height)
    }

    /// The width of the image.
    pub fn width(&self) -> (width: u32)
        ensures
            width == self@.width,
    {
        self.width
    }

    /// The height of the image.
    pub fn height(&self) -> (height: u32)
        ensures
            height == self@.height,
    {
        self.height
    }

    /// The pixel in column `x` of row `y`.
    pub fn get_pixel(&self, x: u32, y: u32) -> (pixel: Rgba)
        requires
            x < self@.width,
            y < self@.height,
        ensures
            pixel == self@.at(x as int, y as int),
    {
        proof {
            use_type_invariant(self);
            lemma_position_in_range(self@, x as int, y as int);
            assert(self.pixels@.len() == self.pixels.len());
        }
        self.pixels[y as usize * self.width as usize + x as usize]
    }
}

/// Computes the checksum of an image and, if the options ask for it, the
/// bounding box of its foreground pixels.
///
/// The checksum is the sum, wrapping around at 2^64, of the weights of all
/// pixels, in lowercase hexadecimal. The box starts inverted and grows by
/// every pixel whose alpha is at or above the background threshold: for an
/// image without such a pixel it comes back inverted, which
/// [`BorderBox::is_within`] tells from a box around pixels.
pub fn summarize_contents(img: &PixelGrid, options: &Options) -> (summary: (
    String,
    Option<BorderBox>,
))
    ensures
        summary.0@ == checksum_text(img@.pixels),
        summary.1 == if options.compute_border_box {
            Some(img@.tracked_box(options.background_alpha))
        } else {
            None::<BorderBox>
        },
{
    let (sum, border_box) = scan(img, options.background_alpha, options.compute_border_box);
    let checksum_string = to_lower_hex(sum);
    if options.compute_border_box {
        (checksum_string, Some(border_box))
    } else {
        (checksum_string, None)
    }
}

/// Computes the checksum of an image, in lowercase hexadecimal.
pub fn compute_png_checksum(img: &PixelGrid) -> (text: String)
    ensures
        text@ == checksum_text(img@.pixels),
{
    let (sum, _) = scan(img, 0, false);
    to_lower_hex(sum)
}

/// Visits every pixel once, row by row, adding up the checksum and, if
/// `grow_box` is set, growing the box around the foreground.
fn scan(img: &PixelGrid, background_alpha: u8, grow_box: bool) -> (found: (u64, BorderBox))
    ensures
        found.0 == checksum(img@.pixels),
        grow_box ==> found.1 == img@.tracked_box(background_alpha),
{
    let (width, height) = img.dimensions();
    let mut sum: u64 = 0;
    let mut border_box = BorderBox { left: width, right: 0, top: height, bottom: 0 };
    let mut y: u32 = 0;
    proof {
        lemma_scan_start(img@, background_alpha);
        assert(img@.pixels.take(0) == Seq::<Rgba>::empty());
    }
    while y < height
        invariant
            y <= height,
            width == img@.width,
            height == img@.height,
            img@.pixels.len() == width * height,
            sum == checksum(img@.pixels.take(y * width)),
            grow_box ==> img@.scanned(background_alpha, border_box, 0, y as int),
        decreases height - y,
    {
        let mut x: u32 = 0;
        while x < width
            invariant
                x <= width,
                y < height,
                width == img@.width,
                height == img@.height,
                img@.pixels.len() == width * height,
                sum == checksum(img@.pixels.take(y * width + x)),
                grow_box ==> img@.scanned(background_alpha, border_box, x as int, y as int),
            decreases width - x,
        {
            let rgba = img.get_pixel(x, y);
            proof {
                let position = y * width + x;
                lemma_position_in_range(img@, x as int, y as int);
                assert(img@.pixels.take(position + 1) == img@.pixels.take(position).push(rgba));
                lemma_checksum_push(img@.pixels.take(position), rgba);
                if grow_box {
                    lemma_scan_step(img@, background_alpha, border_box, x as int, y as int);
                }
            }
            sum = sum.wrapping_add(rgba.checksum_weight());
            if grow_box && rgba.alpha >= background_alpha {
                border_box.include_pixel(x, y);
            }
            x += 1;
        }
        proof {
            lemma_next_row_position(width as int, y as int);
            if grow_box {
                lemma_scan_next_row(img@, background_alpha, border_box, y as int);
            }
        }
        y += 1;
    }
    proof {
        assert(img@.pixels.take(height * width) == img@.pixels) by {
            assert(height * width == width * height) by (nonlinear_arith);
        }
        if grow_box {
            lemma_scan_end(img@, background_alpha, border_box);
        }
    }
    (sum, border_box)
}

/// The sum of the weights does not depend on the order of the pixels.
pub proof fn lemma_weight_sum_any_order(first: Seq<Rgba>, second: Seq<Rgba>)
    requires
        first.to_multiset() == second.to_multiset(),
    ensures
        weight_sum(first) == weight_sum(second),
    decreases first.len(),
{
    first.to_multiset_ensures();
    second.to_multiset_ensures();
    if first.len() > 0 {
        let last = first.last();
        assert(first.contains(last)) by {
            assert(first[first.len() - 1] == last);
        }
        assert(first.to_multiset().count(last) > 0);
        assert(second.to_multiset().count(last) > 0);
        assert(second.contains(last));
        let j = choose|j: int| 0 <= j < second.len() && second[j] == last;
        assert(first.remove(first.len() - 1) == first.drop_last());
        assert(first.drop_last().to_multiset() == second.remove(j).to_multiset());
        lemma_weight_sum_any_order(first.drop_last(), second.remove(j));
        lemma_weight_sum_remove(second, j);
    }
}

/// The checksum does not depend on the order in which the pixels are
/// visited: any rearrangement of the same pixels has the same checksum.
pub proof fn lemma_checksum_any_order(first: Seq<Rgba>, second: Seq<Rgba>)
    requires
        first.to_multiset() == second.to_multiset(),
    ensures
        checksum(first) == checksum(second),
        checksum_text(first) == checksum_text(second),
{
    lemma_weight_sum_any_order(first, second);
}

/// The checksum is determined by the pixel content: two images with the same
/// pixels in the same order have the same checksum text, whatever their
/// widths and heights are.
pub proof fn lemma_checksum_of_same_pixels(first: Raster, second: Raster)
    requires
        first.pixels.len() == second.pixels.len(),
        forall|i: int| 0 <= i < first.pixels.len() ==> first.pixels[i] == second.pixels[i],
    ensures
        checksum_text(first.pixels) == checksum_text(second.pixels),
{
    assert(first.pixels =~= second.pixels);
}

/// An image has at most one tight bounding box of its foreground.
pub proof fn lemma_foreground_box_is_unique(
    image: Raster,
    background_alpha: u8,
    a: BorderBox,
    b: BorderBox,
)
    requires
        image.is_foreground_box(background_alpha, a),
        image.is_foreground_box(background_alpha, b),
    ensures
        a == b,
{
}

/// The bounding box of the foreground names pixels of the image, while the
/// box of an image without foreground does not: a caller tells the two apart
/// by the image's size.
pub proof fn lemma_tracked_box_within_image(image: Raster, background_alpha: u8)
    ensures
        image.tracked_box(background_alpha).lies_within(image.width, image.height)
            <==> image.has_foreground(background_alpha),
        image.foreground_box(background_alpha) matches Some(b) ==> image.is_foreground_box(
            background_alpha,
            b,
        ),
{
    if image.has_foreground(background_alpha) {
        let (x, y) = choose|x: int, y: int| image.is_foreground(x, y, background_alpha);
        lemma_foreground_box_exists(image, background_alpha);
    }
}

/// Appending a pixel adds its weight to the checksum, wrapping around at
/// 2^64.
pub proof fn lemma_checksum_push(pixels: Seq<Rgba>, pixel: Rgba)
    ensures
        checksum(pixels.push(pixel)) == vstd::wrapping::u64_specs::wrapping_add(
            checksum(pixels),
            pixel.weight() as u64,
        ),
{
    let modulus = 0x1_0000_0000_0000_0000int;
    let sum = weight_sum(pixels) as int;
    let weight = pixel.weight() as int;
    assert(pixels.push(pixel).drop_last() == pixels);
    assert(weight_sum(pixels.push(pixel)) == sum + weight);
    lemma_add_mod_noop(sum, weight, modulus);
    lemma_small_mod(weight as nat, modulus as nat);
    let reduced = sum % modulus;
    if reduced + weight < modulus {
        lemma_small_mod((reduced + weight) as nat, modulus as nat);
    } else {
        vstd::arithmetic::div_mod::lemma_mod_sub_multiples_vanish(reduced + weight, modulus);
        lemma_small_mod((reduced + weight - modulus) as nat, modulus as nat);
    }
}

/// Taking one pixel out of a stream takes its weight out of the sum.
proof fn lemma_weight_sum_remove(pixels: Seq<Rgba>, i: int)
    requires
        0 <= i < pixels.len(),
    ensures
        weight_sum(pixels) == weight_sum(pixels.remove(i)) + pixels[i].weight(),
    decreases pixels.len(),
{
    if i == pixels.len() - 1 {
        assert(pixels.remove(i) == pixels.drop_last());
    } else {
        assert(pixels.remove(i).drop_last() == pixels.drop_last().remove(i));
        assert(pixels.remove(i).last() == pixels.last());
        lemma_weight_sum_remove(pixels.drop_last(), i);
    }
}

/// A pixel's place in row-major order lies within the pixels of the image.
proof fn lemma_position_in_range(image: Raster, x: int, y: int)
    requires
        0 <= x < image.width,
        0 <= y < image.height,
    ensures
        0 <= y * image.width <= y * image.width + x < image.width * image.height,
{
    let w = image.width as int;
    let h = image.height as int;
    assert(0 <= y * w && (y + 1) * w <= h * w && (y + 1) * w == y * w + w && h * w == w * h)
        by (nonlinear_arith)
        requires
            0 <= y < h,
            0 <= w,
    ;
}

/// The row after row `y` starts one width further on in row-major order.
proof fn lemma_next_row_position(width: int, y: int)
    ensures
        (y + 1) * width == y * width + width,
{
    assert((y + 1) * width == y * width + width) by (nonlinear_arith);
}

impl Raster {
    /// The pixel in column `x` of row `y` comes before column `col` of row
    /// `row` in row-major order.
    spec fn comes_before(x: int, y: int, col: int, row: int) -> bool {
        y < row || (y == row && x < col)
    }

    /// Column `x` of row `y` holds a foreground pixel that the scan has seen
    /// when it stands at column `col` of row `row`.
    spec fn seen(self, background_alpha: u8, x: int, y: int, col: int, row: int) -> bool {
        self.is_foreground(x, y, background_alpha) && Self::comes_before(x, y, col, row)
    }

    /// The scan has seen a foreground pixel.
    spec fn any_seen(self, background_alpha: u8, col: int, row: int) -> bool {
        exists|x: int, y: int| self.seen(background_alpha, x, y, col, row)
    }

    /// The scan has seen a foreground pixel in column `x`.
    spec fn column_seen(self, background_alpha: u8, x: int, col: int, row: int) -> bool {
        exists|y: int| self.seen(background_alpha, x, y, col, row)
    }

    /// The scan has seen a foreground pixel in row `y`.
    spec fn row_seen(self, background_alpha: u8, y: int, col: int, row: int) -> bool {
        exists|x: int| self.seen(background_alpha, x, y, col, row)
    }

    /// What holds of the box when the scan stands at column `col` of row
    /// `row`: it is the tight bounding box of the foreground seen so far, or
    /// still inverted if none was seen.
    spec fn scanned(self, background_alpha: u8, b: BorderBox, col: int, row: int) -> bool {
        if self.any_seen(background_alpha, col, row) {
            &&& forall|x: int, y: int| #[trigger]
                self.seen(background_alpha, x, y, col, row) ==> b.left <= x <= b.right && b.top
                    <= y <= b.bottom
            &&& self.column_seen(background_alpha, b.left as int, col, row)
            &&& self.column_seen(background_alpha, b.right as int, col, row)
            &&& self.row_seen(background_alpha, b.top as int, col, row)
            &&& self.row_seen(background_alpha, b.bottom as int, col, row)
        } else {
            b == self.inverted_box()
        }
    }
}

/// The scan moves one pixel to the right: the box grows by that pixel if it
/// is foreground.
proof fn lemma_scan_step(image: Raster, background_alpha: u8, b: BorderBox, col: int, row: int)
    requires
        0 <= col < image.width,
        0 <= row < image.height,
        image.scanned(background_alpha, b, col, row),
    ensures
        image.scanned(
            background_alpha,
            if image.is_foreground(col, row, background_alpha) {
                b.with_pixel(col as u32, row as u32)
            } else {
                b
            },
            col + 1,
            row,
        ),
{
    let a = background_alpha;
    let next = col + 1;
    assert forall|x: int, y: int| #[trigger]
        image.seen(a, x, y, next, row) == (image.seen(a, x, y, col, row) || (x == col && y
            == row && image.is_foreground(col, row, a))) by {}
    if image.is_foreground(col, row, a) {
        let grown = b.with_pixel(col as u32, row as u32);
        assert(image.seen(a, col, row, next, row));
        if image.any_seen(a, col, row) {
            let yl = choose|y: int| image.seen(a, b.left as int, y, col, row);
            let yr = choose|y: int| image.seen(a, b.right as int, y, col, row);
            let xt = choose|x: int| image.seen(a, x, b.top as int, col, row);
            let xb = choose|x: int| image.seen(a, x, b.bottom as int, col, row);
            assert(image.seen(a, b.left as int, yl, next, row));
            assert(image.seen(a, b.right as int, yr, next, row));
            assert(image.seen(a, xt, b.top as int, next, row));
            assert(image.seen(a, xb, b.bottom as int, next, row));
        } else {
            assert(b == image.inverted_box());
            assert forall|x: int, y: int| #[trigger]
                image.seen(a, x, y, next, row) implies x == col && y == row by {
                if image.seen(a, x, y, col, row) {
                    assert(image.any_seen(a, col, row));
                }
            }
        }
        assert(image.column_seen(a, grown.left as int, next, row));
        assert(image.column_seen(a, grown.right as int, next, row));
        assert(image.row_seen(a, grown.top as int, next, row));
        assert(image.row_seen(a, grown.bottom as int, next, row));
    } else {
        if image.any_seen(a, col, row) {
            let (x0, y0) = choose|x: int, y: int| image.seen(a, x, y, col, row);
            assert(image.seen(a, x0, y0, next, row));
            let yl = choose|y: int| image.seen(a, b.left as int, y, col, row);
            let yr = choose|y: int| image.seen(a, b.right as int, y, col, row);
            let xt = choose|x: int| image.seen(a, x, b.top as int, col, row);
            let xb = choose|x: int| image.seen(a, x, b.bottom as int, col, row);
            assert(image.seen(a, b.left as int, yl, next, row));
            assert(image.seen(a, b.right as int, yr, next, row));
            assert(image.seen(a, xt, b.top as int, next, row));
            assert(image.seen(a, xb, b.bottom as int, next, row));
        } else {
            if image.any_seen(a, next, row) {
                let (x0, y0) = choose|x: int, y: int| image.seen(a, x, y, next, row);
                assert(image.seen(a, x0, y0, col, row));
            }
        }
    }
}

/// At the end of a row the scan stands at the start of the next one.
proof fn lemma_scan_next_row(image: Raster, background_alpha: u8, b: BorderBox, row: int)
    requires
        image.scanned(background_alpha, b, image.width as int, row),
    ensures
        image.scanned(background_alpha, b, 0, row + 1),
{
    let a = background_alpha;
    let below = row + 1;
    let w = image.width as int;
    assert forall|x: int, y: int| #[trigger]
        image.seen(a, x, y, 0, below) == image.seen(a, x, y, w, row) by {}
    if image.any_seen(a, w, row) {
        let (x0, y0) = choose|x: int, y: int| image.seen(a, x, y, w, row);
        assert(image.seen(a, x0, y0, 0, below));
        let yl = choose|y: int| image.seen(a, b.left as int, y, w, row);
        let yr = choose|y: int| image.seen(a, b.right as int, y, w, row);
        let xt = choose|x: int| image.seen(a, x, b.top as int, w, row);
        let xb = choose|x: int| image.seen(a, x, b.bottom as int, w, row);
        assert(image.seen(a, b.left as int, yl, 0, below));
        assert(image.seen(a, b.right as int, yr, 0, below));
        assert(image.seen(a, xt, b.top as int, 0, below));
        assert(image.seen(a, xb, b.bottom as int, 0, below));
    } else {
        if image.any_seen(a, 0, below) {
            let (x0, y0) = choose|x: int, y: int| image.seen(a, x, y, 0, below);
            assert(image.seen(a, x0, y0, w, row));
        }
    }
}

/// Before the first pixel the box is the inverted one.
proof fn lemma_scan_start(image: Raster, background_alpha: u8)
    ensures
        image.scanned(background_alpha, image.inverted_box(), 0, 0),
{
    if image.any_seen(background_alpha, 0, 0) {
        let (x0, y0) = choose|x: int, y: int| image.seen(background_alpha, x, y, 0, 0);
        assert(false);
    }
}

/// After the last row the box is what the scan of the whole image leaves.
proof fn lemma_scan_end(image: Raster, background_alpha: u8, b: BorderBox)
    requires
        image.scanned(background_alpha, b, 0, image.height as int),
    ensures
        b == image.tracked_box(background_alpha),
{
    let a = background_alpha;
    let h = image.height as int;
    assert forall|x: int, y: int| #[trigger]
        image.seen(a, x, y, 0, h) == image.is_foreground(x, y, a) by {}
    if image.has_foreground(a) {
        let (x0, y0) = choose|x: int, y: int| image.is_foreground(x, y, a);
        assert(image.seen(a, x0, y0, 0, h));
        let yl = choose|y: int| image.seen(a, b.left as int, y, 0, h);
        let yr = choose|y: int| image.seen(a, b.right as int, y, 0, h);
        let xt = choose|x: int| image.seen(a, x, b.top as int, 0, h);
        let xb = choose|x: int| image.seen(a, x, b.bottom as int, 0, h);
        assert(image.is_foreground(b.left as int, yl, a));
        assert(image.is_foreground(b.right as int, yr, a));
        assert(image.is_foreground(xt, b.top as int, a));
        assert(image.is_foreground(xb, b.bottom as int, a));
        assert forall|x: int, y: int| #[trigger]
            image.is_foreground(x, y, a) implies b.left <= x <= b.right && b.top <= y
            <= b.bottom by {
            assert(image.seen(a, x, y, 0, h));
        }
        assert(image.is_foreground_box(a, b));
        lemma_foreground_box_is_unique(image, a, b, image.foreground_box(a)->0);
    } else {
        if image.any_seen(a, 0, h) {
            let (x0, y0) = choose|x: int, y: int| image.seen(a, x, y, 0, h);
            assert(image.is_foreground(x0, y0, a));
        }
    }
}

/// An image with foreground has a tight bounding box of it.
proof fn lemma_foreground_box_exists(image: Raster, background_alpha: u8)
    requires
        image.has_foreground(background_alpha),
    ensures
        exists|b: BorderBox| image.is_foreground_box(background_alpha, b),
{
    let in_column = |x: int| image.column_has_foreground(x, background_alpha);
    let in_row = |y: int| image.row_has_foreground(y, background_alpha);
    let width = image.width as int;
    let height = image.height as int;
    let (x0, y0) = choose|x: int, y: int| image.is_foreground(x, y, background_alpha);
    assert(in_column(x0) && in_row(y0));
    lemma_least(in_column, width, x0);
    lemma_greatest(in_column, width, x0);
    lemma_least(in_row, height, y0);
    lemma_greatest(in_row, height, y0);
    let b = BorderBox {
        left: least(in_column, width) as u32,
        right: greatest(in_column, width) as u32,
        top: least(in_row, height) as u32,
        bottom: greatest(in_row, height) as u32,
    };
    assert forall|x: int, y: int| #[trigger]
        image.is_foreground(x, y, background_alpha) implies b.left <= x <= b.right && b.top <= y
        <= b.bottom by {
        assert(in_column(x) && in_row(y));
        lemma_least(in_column, width, x);
        lemma_greatest(in_column, width, x);
        lemma_least(in_row, height, y);
        lemma_greatest(in_row, height, y);
    }
    assert(in_column(b.left as int) && in_column(b.right as int));
    assert(in_row(b.top as int) && in_row(b.bottom as int));
    assert(image.is_foreground_box(background_alpha, b));
}

/// `holds` of `i`, as a term that quantifiers can be instantiated by.
spec fn holds_at(holds: spec_fn(int) -> bool, i: int) -> bool {
    holds(i)
}

/// The least number from 0 up to `bound` for which `holds`, or `bound` if
/// there is none below it.
spec fn least(holds: spec_fn(int) -> bool, bound: int) -> int
    decreases bound,
{
    if bound <= 0 {
        0
    } else {
        let below = least(holds, bound - 1);
        if below < bound - 1 || holds(bound - 1) {
            below
        } else {
            bound
        }
    }
}

/// The greatest number below `bound` and not below 0 for which `holds`, or -1
/// if there is none.
spec fn greatest(holds: spec_fn(int) -> bool, bound: int) -> int
    decreases bound,
{
    if bound <= 0 {
        -1
    } else if holds(bound - 1) {
        bound - 1
    } else {
        greatest(holds, bound - 1)
    }
}

/// `least` finds a number for which `holds`, and no smaller one has it,
/// provided that some `witness` below the bound has it.
proof fn lemma_least(holds: spec_fn(int) -> bool, bound: int, witness: int)
    requires
        0 <= witness < bound,
        holds(witness),
    ensures
        0 <= least(holds, bound) <= witness,
        holds(least(holds, bound)),
{
    lemma_least_range(holds, bound);
    assert(holds_at(holds, witness));
}

/// `least` stays within its bound; below the bound it names a number for
/// which `holds`, and none before it does.
proof fn lemma_least_range(holds: spec_fn(int) -> bool, bound: int)
    requires
        0 <= bound,
    ensures
        0 <= least(holds, bound) <= bound,
        least(holds, bound) < bound ==> holds(least(holds, bound)),
        forall|i: int| 0 <= i < least(holds, bound) ==> !#[trigger] holds_at(holds, i),
    decreases bound,
{
    if bound > 0 {
        lemma_least_range(holds, bound - 1);
    }
}

/// `greatest` finds a number for which `holds`, and no larger one below the
/// bound has it, provided that some `witness` below the bound has it.
proof fn lemma_greatest(holds: spec_fn(int) -> bool, bound: int, witness: int)
    requires
        0 <= witness < bound,
        holds(witness),
    ensures
        witness <= greatest(holds, bound) < bound,
        holds(greatest(holds, bound)),
    decreases bound,
{
    if !holds(bound - 1) {
        lemma_greatest(holds, bound - 1, witness);
    }
}

} // verus!
