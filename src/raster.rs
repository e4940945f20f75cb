use vstd::prelude::*;

verus! {

/// The pixel at position `k` of the work order of a raster `height` pixels
/// high: columns left to right, each from top to bottom.
pub open spec fn pixel_at(height: nat, k: nat) -> (u32, u32) {
    ((k / height) as u32, (k % height) as u32)
}

/// Every pixel of a `width` by `height` raster, column by column, each column
/// from top to bottom.
pub fn pixel_order(width: u32, height: u32) -> (r: Vec<(u32, u32)>)
    requires
        width * height <= usize::MAX,
    ensures
        r.len() == width * height,
        forall|k: int| 0 <= k < r.len() ==> #[trigger] r@[k] == pixel_at(height as nat, k as nat),
{
    let n: usize = (width as usize) * (height as usize);
    let mut r: Vec<(u32, u32)> = Vec::new();
    let mut k: usize = 0;
    while k < n
        invariant
            k <= n,
            n == width * height,
            r.len() == k,
            forall|j: int| 0 <= j < k ==> #[trigger] r@[j] == pixel_at(height as nat, j as nat),
        decreases n - k,
    {
        assert(height > 0) by (nonlinear_arith)
            requires
                k < n,
                n == width * height,
        ;
        assert(k / (height as usize) < width) by (nonlinear_arith)
            requires
                k < n,
                n == width * height,
                height > 0,
        ;
        let h = height as usize;
        r.push(((k / h) as u32, (k % h) as u32));
        k = k + 1;
    }
    r
}

/// The work order holds each pixel of the raster exactly once: pixel `(x, y)`
/// stands at position `x * height + y` and nowhere else.
pub proof fn lemma_pixel_order_exactly_once(width: u32, height: u32, x: u32, y: u32, k: nat)
    requires
        x < width,
        y < height,
        k < width * height,
    ensures
        pixel_at(height as nat, (x * height + y) as nat) == (x, y),
        pixel_at(height as nat, k) == (x, y) ==> k == x * height + y,
{
    let i = x * height + y;
    vstd::arithmetic::div_mod::lemma_fundamental_div_mod_converse(i as int, height as int, x as int, y as int);
    assert(k / (height as nat) < width) by (nonlinear_arith)
        requires
            k < width * height,
            y < height,
    ;
    assert(k == height * (k / (height as nat)) + k % (height as nat)) by (nonlinear_arith)
        requires
            height > 0,
    ;
    if pixel_at(height as nat, k) == (x, y) {
        assert(k / (height as nat) == x);
        assert(k % (height as nat) == y);
        assert(k == x * height + y) by (nonlinear_arith)
            requires
                k == height * (k / (height as nat)) + k % (height as nat),
                k / (height as nat) == x,
                k % (height as nat) == y,
        ;
    }
}

/// Pixels waiting to be rendered, taken last in first out.
pub struct PixelQueue {
    pub pending: Vec<(u32, u32)>,
}

impl PixelQueue {
    /// A queue that holds every pixel of the raster, in the work order.
    pub fn new(width: u32, height: u32) -> (r: PixelQueue)
        requires
            width * height <= usize::MAX,
        ensures
            r.pending.len() == width * height,
            forall|k: int| 0 <= k < r.pending.len() ==> #[trigger] r.pending@[k] == pixel_at(height as nat, k as nat),
    {
        PixelQueue { pending: pixel_order(width, height) }
    }

    pub fn is_empty(&self) -> (r: bool)
        ensures
            r == (self.pending.len() == 0),
    {
        self.pending.len() == 0
    }

    /// Takes the pixel queued last, if any.
    pub fn pop(&mut self) -> (r: Option<(u32, u32)>)
        ensures
            old(self).pending.len() == 0 ==> r.is_none() && final(self).pending@ == old(self).pending@,
            old(self).pending.len() > 0 ==> r == Some(old(self).pending@.last())
                && final(self).pending@ == old(self).pending@.drop_last(),
    {
        self.pending.pop()
    }
}

/// A raster of 8-bit RGB pixels, row by row from the top.
pub struct Framebuffer {
    pub width: u32,
    pub height: u32,
    pub pixels: Vec<(u8, u8, u8)>,
}

/// Where pixel `(x, y)` of a raster `width` pixels wide is kept.
pub open spec fn pixel_slot(width: nat, x: nat, y: nat) -> nat {
    y * width + x
}

impl Framebuffer {
    pub open spec fn wf(self) -> bool {
        self.pixels.len() == self.width * self.height
    }

    pub open spec fn spec_pixel(self, x: nat, y: nat) -> (u8, u8, u8) {
        self.pixels@[pixel_slot(self.width as nat, x, y) as int]
    }

    /// A black raster.
    pub fn new(width: u32, height: u32) -> (r: Framebuffer)
        requires
            width * height <= usize::MAX,
        ensures
            r.wf(),
            r.width == width,
            r.height == height,
            forall|x: nat, y: nat| x < width && y < height ==> #[trigger] r.spec_pixel(x, y) == (0u8, 0u8, 0u8),
    {
        let n: usize = (width as usize) * (height as usize);
        let mut pixels: Vec<(u8, u8, u8)> = Vec::new();
        let mut k: usize = 0;
        while k < n
            invariant
                k <= n,
                pixels.len() == k,
                forall|j: int| 0 <= j < k ==> #[trigger] pixels@[j] == (0u8, 0u8, 0u8),
            decreases n - k,
        {
            pixels.push((0, 0, 0));
            k = k + 1;
        }
        let r = Framebuffer { width, height, pixels };
        assert forall|x: nat, y: nat| x < width && y < height implies #[trigger] r.spec_pixel(x, y) == (0u8, 0u8, 0u8) by {
            lemma_slot_in_range(width as nat, height as nat, x, y);
        }
        r
    }

    /// Sets pixel `(x, y)`; every other pixel keeps its value.
    pub fn put_pixel(&mut self, x: u32, y: u32, rgb: (u8, u8, u8))
        requires
            old(self).wf(),
            x < old(self).width,
            y < old(self).height,
        ensures
            final(self).wf(),
            final(self).width == old(self).width,
            final(self).height == old(self).height,
            final(self).spec_pixel(x as nat, y as nat) == rgb,
            forall|a: nat, b: nat|
                a < final(self).width && b < final(self).height && (a != x || b != y)
                    ==> #[trigger] final(self).spec_pixel(a, b) == old(self).spec_pixel(a, b),
    {
        proof {
            lemma_slot_in_range(self.width as nat, self.height as nat, x as nat, y as nat);
        }
        let slot = (y as usize) * (self.width as usize) + (x as usize);
        self.pixels.set(slot, rgb);
        proof {
            assert forall|a: nat, b: nat|
                a < self.width && b < self.height && (a != x || b != y) implies #[trigger] self.spec_pixel(a, b)
                == old(self).spec_pixel(a, b) by {
                lemma_slot_in_range(self.width as nat, self.height as nat, a, b);
                lemma_slot_unique(self.width as nat, x as nat, y as nat, a, b);
            }
        }
    }

    /// The value of pixel `(x, y)`.
    pub fn get_pixel(&self, x: u32, y: u32) -> (r: (u8, u8, u8))
        requires
            self.wf(),
            x < self.width,
            y < self.height,
        ensures
            r == self.spec_pixel(x as nat, y as nat),
    {
        proof {
            lemma_slot_in_range(self.width as nat, self.height as nat, x as nat, y as nat);
        }
        self.pixels[(y as usize) * (self.width as usize) + (x as usize)]
    }
}

proof fn lemma_slot_in_range(width: nat, height: nat, x: nat, y: nat)
    requires
        x < width,
        y < height,
    ensures
        pixel_slot(width, x, y) < width * height,
{
    assert(y * width + x < width * height) by (nonlinear_arith)
        requires
            x < width,
            y < height,
    ;
}

proof fn lemma_slot_unique(width: nat, x: nat, y: nat, a: nat, b: nat)
    requires
        x < width,
        a < width,
        a != x || b != y,
    ensures
        pixel_slot(width, x, y) != pixel_slot(width, a, b),
{
    if b == y {
    } else if b < y {
        assert(b * width + a < y * width + x) by (nonlinear_arith)
            requires
                b < y,
                a < width,
        ;
    } else {
        assert(y * width + x < b * width + a) by (nonlinear_arith)
            requires
                y < b,
                x < width,
        ;
    }
}

/// `v` held to `0..=255`.
pub open spec fn clamp_byte(v: int) -> int {
    if v < 0 {
        0
    } else if v > 255 {
        255
    } else {
        v
    }
}

/// The 8-bit value of a color channel from `scaled`, the channel times 256
/// with its fraction dropped: held to `0..=255`.
pub fn channel_byte(scaled: i64) -> (r: u8)
    ensures
        r == clamp_byte(scaled as int),
{
    if scaled < 0 {
        0
    } else if scaled > 255 {
        255
    } else {
        scaled as u8
    }
}

/// The 8-bit pixel of a color whose channels, times 256 and with their
/// fractions dropped, are `r`, `g` and `b`.
pub fn image_pixel(r: i64, g: i64, b: i64) -> (p: (u8, u8, u8))
    ensures
        p == (clamp_byte(r as int) as u8, clamp_byte(g as int) as u8, clamp_byte(b as int) as u8),
{
    (channel_byte(r), channel_byte(g), channel_byte(b))
}

/// The channel conversion sends 0 to 0 and every channel of at least 1 (so
/// scaled to at least 256) to 255, and never inverts the order of two channels.
pub proof fn lemma_channel_byte_laws(a: int, b: int)
    ensures
        clamp_byte(0) == 0,
        a >= 256 ==> clamp_byte(a) == 255,
        a <= b ==> clamp_byte(a) <= clamp_byte(b),
        0 <= clamp_byte(a) <= 255,
{
}

} // verus!
