use vstd::prelude::*;

verus! {

/// The mathematical content of an [`Image`]: its dimensions and its channel
/// bytes, four per pixel (R, G, B, A), pixels in row-major order.
pub struct ImageView {
    pub width: nat,
    pub height: nat,
    pub channels: Seq<u8>,
}

impl ImageView {
    /// Number of pixels.
    pub open spec fn pixel_count(self) -> nat {
        self.width * self.height
    }

    /// Every pixel has its four channels, and every pixel can be numbered by
    /// a 32-bit cursor.
    pub open spec fn wf(self) -> bool {
        &&& self.channels.len() == 4 * self.pixel_count()
        &&& self.pixel_count() <= u32::MAX
    }

    /// The four channels of the pixel at linear index `p`.
    pub open spec fn pixel(self, p: int) -> Seq<u8> {
        self.channels.subrange(4 * p, 4 * p + 4)
    }
}

/// An 8-bit RGBA raster held in memory.
pub struct Image {
    width: u32,
    height: u32,
    data: Vec<u8>,
}

impl View for Image {
    type V = ImageView;

    closed spec fn view(&self) -> ImageView {
        ImageView { width: self.width as nat, height: self.height as nat, channels: self.data@ }
    }
}

impl Image {
    /// Builds an image from its row-major RGBA bytes. Returns `None` when
    /// `data` does not hold exactly four bytes per pixel, or when the image
    /// has more pixels than a 32-bit cursor can number.
    pub fn from_raw(width: u32, height: u32, data: Vec<u8>) -> (r: Option<Image>)
        ensures
            match r {
                Some(img) => img@ == (ImageView {
                    width: width as nat,
                    height: height as nat,
                    channels: data@,
                }) && img@.wf(),
                None => !(ImageView { width: width as nat, height: height as nat, channels: data@ }).wf(),
            },
    {
        proof {
            assert(width as u64 * height as u64 <= u64::MAX) by (nonlinear_arith)
                requires width <= u32::MAX, height <= u32::MAX;
        }
        let pixels: u64 = width as u64 * height as u64;
        if pixels > u32::MAX as u64 || data.len() as u64 != 4 * pixels {
            None
        } else {
            Some(Image { width, height, data })
        }
    }

    /// The row-major RGBA bytes of the image.
    pub fn into_raw(self) -> (r: Vec<u8>)
        ensures
            r@ == self@.channels,
    {
        self.data
    }

    pub fn width(&self) -> (r: u32)
        ensures
            r == self@.width,
    {
        self.width
    }

    pub fn height(&self) -> (r: u32)
        ensures
            r == self@.height,
    {
        self.height
    }

    /// Number of pixels.
    pub fn pixel_count(&self) -> (r: u32)
        requires
            self@.wf(),
        ensures
            r == self@.pixel_count(),
    {
        proof {
            assert(self.width as u64 * self.height as u64 <= u64::MAX) by (nonlinear_arith)
                requires self.width <= u32::MAX, self.height <= u32::MAX;
        }
        (self.width as u64 * self.height as u64) as u32
    }

    /// The four channels of the pixel in column `x` of row `y`.
    pub fn get_pixel(&self, x: u32, y: u32) -> (r: [u8; 4])
        requires
            self@.wf(),
            x < self@.width,
            y < self@.height,
        ensures
            r@ == self@.pixel(y * self@.width + x),
    {
        proof {
            let w = self@.width;
            let h = self@.height;
            assert(4 * (y * w + x) + 4 <= 4 * (w * h)) by (nonlinear_arith)
                requires x < w, y < h;
            assert(self.data@.len() == self.data.len() as int);
        }
        let base: usize = (4 * (y as u64 * self.width as u64 + x as u64)) as usize;
        let r = [self.data[base], self.data[base + 1], self.data[base + 2], self.data[base + 3]];
        assert(r@ =~= self@.pixel(y * self@.width + x));
        r
    }

    /// Replaces the pixel in column `x` of row `y` by `px`.
    pub fn put_pixel(&mut self, x: u32, y: u32, px: [u8; 4])
        requires
            old(self)@.wf(),
            x < old(self)@.width,
            y < old(self)@.height,
        ensures
            final(self)@.wf(),
            final(self)@.width == old(self)@.width,
            final(self)@.height == old(self)@.height,
            final(self)@.channels == old(self)@.channels.update_subrange_with(
                4 * (y * old(self)@.width + x),
                px@,
            ),
    {
        proof {
            let w = self@.width;
            let h = self@.height;
            assert(4 * (y * w + x) + 4 <= 4 * (w * h)) by (nonlinear_arith)
                requires x < w, y < h;
            assert(self.data@.len() == self.data.len() as int);
        }
        let base: usize = (4 * (y as u64 * self.width as u64 + x as u64)) as usize;
        self.data.set(base, px[0]);
        self.data.set(base + 1, px[1]);
        self.data.set(base + 2, px[2]);
        self.data.set(base + 3, px[3]);
        assert(self.data@ =~= old(self)@.channels.update_subrange_with(
            4 * (y * old(self)@.width + x),
            px@,
        ));
    }
}

} // verus!
