//! The frame buffer, and its encodings as a portable pixmap.

use crate::color::Rgb;
use crate::decimal::{decimal, lemma_decimal_digits, push_decimal};
use vstd::arithmetic::div_mod::lemma_fundamental_div_mod_converse;
use vstd::prelude::*;
use vstd::utf8::is_ascii_chars;

verus! {

/// Where the pixel in column `x` of row `y` stands in a raster of the given
/// width.
pub open spec fn pixel_index(width: u32, x: u32, y: u32) -> int {
    y as int * width as int + x as int
}

/// What a frame buffer holds: `width` by `height` pixels, row after row.
pub ghost struct Raster {
    pub width: u32,
    pub height: u32,
    pub pixels: Seq<Rgb>,
}

impl Raster {
    /// The raster of `width` by `height` pixels that are all black.
    pub open spec fn black(width: u32, height: u32) -> Raster {
        Raster {
            width,
            height,
            pixels: Seq::new(width as nat * height as nat, |i: int| Rgb { r: 0, g: 0, b: 0 }),
        }
    }

    /// The raster holds one pixel for each place.
    pub open spec fn wf(self) -> bool {
        self.pixels.len() == self.width as nat * self.height as nat
    }

    /// Whether column `x` of row `y` is a place of the raster.
    pub open spec fn contains(self, x: u32, y: u32) -> bool {
        x < self.width && y < self.height
    }

    /// The pixel in column `x` of row `y`.
    pub open spec fn pixel(self, x: u32, y: u32) -> Rgb {
        self.pixels[pixel_index(self.width, x, y)]
    }

    /// The raster with the pixel in column `x` of row `y` set to `c`.
    pub open spec fn set(self, x: u32, y: u32, c: Rgb) -> Raster {
        Raster { pixels: self.pixels.update(pixel_index(self.width, x, y), c), ..self }
    }
}

/// The bytes of a text that holds ASCII characters only.
pub open spec fn ascii_bytes(text: Seq<char>) -> Seq<u8> {
    Seq::new(text.len(), |i: int| text[i] as u8)
}

/// The head of a pixmap: the magic token, the width and the height, and 255
/// as the largest value of a channel.
pub open spec fn header(magic: Seq<char>, width: u32, height: u32) -> Seq<char> {
    magic + seq!['\n'] + decimal(width as nat) + seq![' '] + decimal(height as nat)
        + seq!['\n', '2', '5', '5', '\n']
}

/// The pixels of the rows below `top`, the highest of them first, each row
/// from left to right.
pub open spec fn scan(r: Raster, top: u32) -> Seq<Rgb> {
    Seq::new(
        (r.width as nat) * (top as nat),
        |k: int| r.pixels[(top - 1 - k / (r.width as int)) * r.width + k % (r.width as int)],
    )
}

/// One record of three bytes for each pixel.
pub open spec fn records(pixels: Seq<Rgb>) -> Seq<u8> {
    Seq::new(3 * pixels.len(), |j: int| pixels[j / 3].bytes()[j % 3])
}

/// A binary pixmap: the head, then the rows from the highest down, one record
/// for each pixel.
pub open spec fn binary_pixmap(r: Raster) -> Seq<u8> {
    ascii_bytes(header("P6"@, r.width, r.height)) + records(scan(r, r.height))
}

/// A list of pixels as text: a space after each pixel, and the line ends
/// after every fifth.
pub open spec fn listing(pixels: Seq<Rgb>) -> Seq<char>
    decreases pixels.len(),
{
    if pixels.len() == 0 {
        Seq::empty()
    } else {
        listing(pixels.drop_last()) + pixels.last().text() + seq![' '] + if pixels.len() % 5 == 0 {
            seq!['\n']
        } else {
            Seq::empty()
        }
    }
}

/// A plain pixmap without its highest row: the head, then the rows below the
/// highest one from the top down, as a list of pixels.
pub open spec fn plain_pixmap(r: Raster) -> Seq<char> {
    header("P3"@, r.width, r.height) + listing(scan(r, (r.height - 1) as u32))
}

/// A place inside the raster has its index inside the raster.
pub proof fn lemma_index_in_range(width: u32, height: u32, x: u32, y: u32)
    requires
        x < width,
        y < height,
    ensures
        0 <= y as int * width as int <= pixel_index(width, x, y),
        pixel_index(width, x, y) < width as nat * height as nat,
{
    assert(y as int * width as int + width as int <= height as int * width as int)
        by (nonlinear_arith)
        requires
            y < height,
    ;
    assert(height as int * width as int == width as int * height as int) by (nonlinear_arith);
    assert(0 <= y as int * width as int) by (nonlinear_arith);
}

/// Where the pixel in column `x` of row `y` comes in the scan of the rows
/// below `top`.
pub proof fn lemma_scan_place(r: Raster, top: u32, x: u32, y: u32)
    requires
        x < r.width,
        y < top,
    ensures
        ({
            let k = (top - 1 - y) * r.width + x;
            &&& 0 <= k < scan(r, top).len()
            &&& scan(r, top)[k] == r.pixel(x, y)
        }),
{
    let w = r.width as int;
    let q = top - 1 - y;
    let k = q * w + x;
    lemma_fundamental_div_mod_converse(k, w, q, x as int);
    assert(0 <= q * w && q * w + w <= top * w) by (nonlinear_arith)
        requires
            0 <= q < top,
            0 < w,
    ;
    assert(w * top == top * w) by (nonlinear_arith);
}

/// The head of a pixmap holds ASCII characters only, where its magic token
/// does.
pub proof fn lemma_header_ascii(magic: Seq<char>, width: u32, height: u32)
    requires
        is_ascii_chars(magic),
    ensures
        is_ascii_chars(header(magic, width, height)),
{
    lemma_decimal_digits(width as nat);
    lemma_decimal_digits(height as nat);
    let w = decimal(width as nat);
    let h = decimal(height as nat);
    let text = header(magic, width, height);
    assert forall|i: int| 0 <= i < text.len() implies '\0' <= #[trigger] text[i] <= '\u{7f}' by {
        let a = magic.len() as int;
        if i < a {
            assert(text[i] == magic[i]);
        } else if i < a + 1 {
        } else if i < a + 1 + w.len() {
            assert(text[i] == w[i - a - 1]);
        } else if i < a + 2 + w.len() {
        } else if i < a + 2 + w.len() + h.len() {
            assert(text[i] == h[i - a - 2 - w.len()]);
        } else {
        }
    }
}

/// The head of a pixmap with the given magic token.
fn header_text(magic: &str, width: u32, height: u32) -> (r: String)
    ensures
        r@ == header(magic@, width, height),
{
    proof {
        reveal_strlit("\n");
        reveal_strlit(" ");
        reveal_strlit("\n255\n");
    }
    let mut out = String::new();
    out.append(magic);
    out.append("\n");
    push_decimal(&mut out, width);
    out.append(" ");
    push_decimal(&mut out, height);
    out.append("\n255\n");
    assert(out@ =~= header(magic@, width, height));
    out
}

/// A frame buffer: a raster of pixels that are set one by one.
pub struct ImagePpm {
    width: u32,
    height: u32,
    data: Vec<Rgb>,
}

impl View for ImagePpm {
    type V = Raster;

    closed spec fn view(&self) -> Raster {
        Raster { width: self.width, height: self.height, pixels: self.data@ }
    }
}

impl ImagePpm {
    /// A raster of `w` by `h` pixels, all black.
    pub fn new(w: u32, h: u32) -> (img: ImagePpm)
        requires
            w as nat * h as nat <= usize::MAX,
        ensures
            img@ == Raster::black(w, h),
            img@.wf(),
    {
        assert(w as usize as nat * (h as usize as nat) == w as nat * h as nat);
        let n: usize = (w as usize) * (h as usize);
        let mut data: Vec<Rgb> = Vec::new();
        let mut i: usize = 0;
        while i < n
            invariant
                i <= n,
                data@.len() == i,
                forall|j: int| 0 <= j < i ==> data@[j] == (Rgb { r: 0, g: 0, b: 0 }),
            decreases n - i,
        {
            data.push(Rgb::black());
            i = i + 1;
        }
        let img = ImagePpm { width: w, height: h, data };
        assert(img@.pixels =~= Raster::black(w, h).pixels);
        img
    }

    /// The number of columns.
    pub fn width(&self) -> (w: u32)
        ensures
            w == self@.width,
    {
        self.width
    }

    /// The number of rows.
    pub fn height(&self) -> (h: u32)
        ensures
            h == self@.height,
    {
        self.height
    }

    /// Sets the pixel in column `x` of row `y`.
    pub fn set_pixel(&mut self, x: u32, y: u32, c: Rgb)
        requires
            old(self)@.wf(),
            old(self)@.contains(x, y),
        ensures
            final(self)@ == old(self)@.set(x, y, c),
            final(self)@.wf(),
    {
        let index = self.index_of(x, y);
        self.data.set(index, c);
    }

    /// The pixel in column `x` of row `y`.
    pub fn get_pixel(&self, x: u32, y: u32) -> (c: Rgb)
        requires
            self@.wf(),
            self@.contains(x, y),
        ensures
            c == self@.pixel(x, y),
    {
        let index = self.index_of(x, y);
        self.data[index]
    }

    /// Where the pixel in column `x` of row `y` stands.
    pub(crate) fn index_of(&self, x: u32, y: u32) -> (index: usize)
        requires
            self@.wf(),
            self@.contains(x, y),
        ensures
            index == pixel_index(self@.width, x, y),
            index < self@.pixels.len(),
    {
        let n: usize = self.data.len();
        proof {
            lemma_index_in_range(self.width, self.height, x, y);
            assert(pixel_index(self.width, x, y) < n);
        }
        (y as usize) * (self.width as usize) + (x as usize)
    }

    /// The pixels of the rows below `top`, the highest of them first.
    fn scan_rows(&self, top: u32) -> (out: Vec<Rgb>)
        requires
            self@.wf(),
            top <= self@.height,
        ensures
            out@ == scan(self@, top),
    {
        let mut out: Vec<Rgb> = Vec::new();
        let mut y: u32 = top;
        while y > 0
            invariant
                self@.wf(),
                y <= top <= self@.height,
                out@.len() == (top - y) * self@.width,
                forall|k: int| 0 <= k < out@.len() ==> out@[k] == scan(self@, top)[k],
            decreases y,
        {
            y = y - 1;
            let mut x: u32 = 0;
            while x < self.width
                invariant
                    self@.wf(),
                    y < top <= self@.height,
                    x <= self@.width,
                    out@.len() == (top - 1 - y) * self@.width + x,
                    forall|k: int| 0 <= k < out@.len() ==> out@[k] == scan(self@, top)[k],
                decreases self@.width - x,
            {
                proof {
                    lemma_scan_place(self@, top, x, y);
                }
                out.push(self.get_pixel(x, y));
                x = x + 1;
            }
            assert((top - 1 - y) * self@.width + self@.width == (top - y) * self@.width)
                by (nonlinear_arith);
        }
        assert(out@.len() == scan(self@, top).len()) by (nonlinear_arith)
            requires
                out@.len() == (top - 0) * self@.width,
                scan(self@, top).len() == self@.width * top,
        ;
        assert(out@ =~= scan(self@, top));
        out
    }

    /// The image as a binary pixmap.
    pub fn encode(&self) -> (out: Vec<u8>)
        requires
            self@.wf(),
        ensures
            out@ == binary_pixmap(self@),
    {
        let head = header_text("P6", self.width, self.height);
        let head_text = head.as_str();
        proof {
            reveal_strlit("P6");
            lemma_header_ascii("P6"@, self.width, self.height);
            vstd::string::is_ascii_spec_bytes(head_text);
        }
        let mut out = head_text.as_bytes_vec();
        let ghost head_bytes = out@;
        assert(head_bytes =~= ascii_bytes(header("P6"@, self@.width, self@.height)));
        let pixels = self.scan_rows(self.height);
        let n: usize = pixels.len();
        let mut k: usize = 0;
        while k < n
            invariant
                k <= n == pixels@.len(),
                out@ == head_bytes + records(pixels@.take(k as int)),
            decreases n - k,
        {
            let c = pixels[k];
            out.push(c.r);
            out.push(c.g);
            out.push(c.b);
            assert(out@ =~= head_bytes + records(pixels@.take(k + 1)));
            k = k + 1;
        }
        assert(pixels@.take(n as int) =~= pixels@);
        out
    }

    /// The image as a plain pixmap that lacks the highest row.
    pub fn to_text(&self) -> (out: String)
        requires
            self@.wf(),
            self@.height > 0,
        ensures
            out@ == plain_pixmap(self@),
    {
        proof {
            reveal_strlit(" ");
            reveal_strlit("\n");
        }
        let mut out = header_text("P3", self.width, self.height);
        let ghost head = out@;
        let pixels = self.scan_rows(self.height - 1);
        let n: usize = pixels.len();
        let mut k: usize = 0;
        while k < n
            invariant
                k <= n == pixels@.len(),
                out@ == head + listing(pixels@.take(k as int)),
                " "@ == seq![' '],
                "\n"@ == seq!['\n'],
            decreases n - k,
        {
            let c = pixels[k];
            let text = c.to_text();
            out.append(text.as_str());
            out.append(" ");
            if (k + 1) % 5 == 0 {
                out.append("\n");
            }
            proof {
                let next = pixels@.take(k + 1);
                assert(next.drop_last() =~= pixels@.take(k as int));
                assert(next.last() == c);
                assert(out@ =~= head + listing(next));
            }
            k = k + 1;
        }
        assert(pixels@.take(n as int) =~= pixels@);
        out
    }
}

} // verus!
