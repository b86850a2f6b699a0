//! An RGBA8 image held row by row, as the paint pipeline reads and writes it.

use vstd::prelude::*;

verus! {

/// An RGBA8 image: `width * height` pixels, row-major.
#[derive(Debug)]
pub struct Texture {
    width: u32,
    height: u32,
    pixels: Vec<[u8; 4]>,
}

impl Texture {
    #[verifier::type_invariant]
    spec fn inv(self) -> bool {
        self.pixels@.len() == self.width as nat * self.height as nat
    }

    pub closed spec fn spec_width(&self) -> u32 {
        self.width
    }

    pub closed spec fn spec_height(&self) -> u32 {
        self.height
    }

    /// The pixels, row-major: pixel `(x, y)` is at `y * width + x`.
    pub closed spec fn spec_pixels(&self) -> Seq<[u8; 4]> {
        self.pixels@
    }

    /// A texture of the given size filled with one color.
    pub fn from_pixel(width: u32, height: u32, color: [u8; 4]) -> (t: Option<Texture>)
        ensures
            match t {
                Some(t) => {
                    &&& t.spec_width() == width
                    &&& t.spec_height() == height
                    &&& t.spec_pixels() == Seq::new((width as nat * height as nat), |i: int| color)
                },
                None => width as nat * height as nat > usize::MAX,
            },
    {
        let n = (width as usize).checked_mul(height as usize);
        match n {
            None => None,
            Some(n) => {
                let mut pixels: Vec<[u8; 4]> = Vec::new();
                let mut i: usize = 0;
                while i < n
                    invariant
                        i <= n,
                        pixels@ == Seq::new(i as nat, |k: int| color),
                    decreases n - i,
                {
                    pixels.push(color);
                    proof {
                        assert(pixels@ =~= Seq::new((i + 1) as nat, |k: int| color));
                    }
                    i += 1;
                }
                Some(Texture { width, height, pixels })
            },
        }
    }

    /// A copy of the texture, as the undo history keeps it.
    pub fn duplicate(&self) -> (t: Texture)
        ensures
            t.spec_width() == self.spec_width(),
            t.spec_height() == self.spec_height(),
            t.spec_pixels() == self.spec_pixels(),
    {
        proof {
            use_type_invariant(self);
        }
        let n = self.pixels.len();
        let mut pixels: Vec<[u8; 4]> = Vec::new();
        let mut i: usize = 0;
        while i < n
            invariant
                i <= n,
                n == self.pixels@.len(),
                pixels@ == self.pixels@.take(i as int),
            decreases n - i,
        {
            pixels.push(self.pixels[i]);
            proof {
                assert(self.pixels@.take(i + 1) =~= self.pixels@.take(i as int).push(self.pixels@[i as int]));
            }
            i += 1;
        }
        assert(self.pixels@.take(n as int) =~= self.pixels@);
        Texture { width: self.width, height: self.height, pixels }
    }

    /// The texture painted on when none was loaded: 1024 x 1024 texels of light grey.
    pub fn blank_albedo() -> (t: Texture)
        ensures
            t.spec_width() == 1024,
            t.spec_height() == 1024,
            t.spec_pixels() == Seq::new(1024 * 1024, |i: int| [200u8, 200u8, 200u8, 255u8]),
    {
        let color: [u8; 4] = [200, 200, 200, 255];
        let mut pixels: Vec<[u8; 4]> = Vec::new();
        let n: usize = 1024 * 1024;
        let mut i: usize = 0;
        while i < n
            invariant
                i <= n,
                n == 1024 * 1024,
                pixels@ == Seq::new(i as nat, |k: int| color),
            decreases n - i,
        {
            pixels.push(color);
            proof {
                assert(pixels@ =~= Seq::new((i + 1) as nat, |k: int| color));
            }
            i += 1;
        }
        assert(color == [200u8, 200u8, 200u8, 255u8]);
        Texture { width: 1024, height: 1024, pixels }
    }

    /// A texture from its row-major pixels; `None` when their number is not `width * height`.
    pub fn from_pixels(width: u32, height: u32, pixels: Vec<[u8; 4]>) -> (t: Option<Texture>)
        ensures
            match t {
                Some(t) => {
                    &&& pixels@.len() == width as nat * height as nat
                    &&& t.spec_width() == width
                    &&& t.spec_height() == height
                    &&& t.spec_pixels() == pixels@
                },
                None => pixels@.len() != width as nat * height as nat,
            },
    {
        let len = pixels.len();
        let n = (width as usize).checked_mul(height as usize);
        match n {
            Some(n) => if len == n {
                assert(n as nat == width as nat * height as nat) by (nonlinear_arith)
                    requires
                        n as int == (width as usize) as int * (height as usize) as int,
                ;
                Some(Texture { width, height, pixels })
            } else {
                None
            },
            None => None,
        }
    }

    pub fn width(&self) -> (w: u32)
        ensures
            w == self.spec_width(),
            self.spec_pixels().len() == self.spec_width() as nat * self.spec_height() as nat,
    {
        proof {
            use_type_invariant(self);
        }
        self.width
    }

    pub fn height(&self) -> (h: u32)
        ensures
            h == self.spec_height(),
            self.spec_pixels().len() == self.spec_width() as nat * self.spec_height() as nat,
    {
        proof {
            use_type_invariant(self);
        }
        self.height
    }

    /// The pixels, row-major.
    pub fn pixels(&self) -> (p: &Vec<[u8; 4]>)
        ensures
            p@ == self.spec_pixels(),
            self.spec_pixels().len() == self.spec_width() as nat * self.spec_height() as nat,
    {
        proof {
            use_type_invariant(self);
        }
        &self.pixels
    }

    /// The pixel at index `i` (row-major).
    pub fn pixel_at(&self, i: usize) -> (c: [u8; 4])
        requires
            i < self.spec_pixels().len(),
        ensures
            c == self.spec_pixels()[i as int],
    {
        self.pixels[i]
    }

    /// Replaces the pixel at index `i` (row-major).
    pub fn set_pixel_at(&mut self, i: usize, c: [u8; 4])
        requires
            i < old(self).spec_pixels().len(),
        ensures
            final(self).spec_width() == old(self).spec_width(),
            final(self).spec_height() == old(self).spec_height(),
            final(self).spec_pixels() == old(self).spec_pixels().update(i as int, c),
    {
        proof {
            use_type_invariant(&*self);
        }
        let mut whole = Texture { width: 0, height: 0, pixels: Vec::new() };
        std::mem::swap(&mut whole, self);
        let Texture { width, height, mut pixels } = whole;
        pixels.set(i, c);
        *self = Texture { width, height, pixels };
    }

    /// The pixel at `(x, y)`.
    pub fn get_pixel(&self, x: u32, y: u32) -> (c: [u8; 4])
        requires
            x < self.spec_width(),
            y < self.spec_height(),
        ensures
            c == self.spec_pixels()[y as int * self.spec_width() as int + x as int],
    {
        proof {
            use_type_invariant(self);
            assert(y as int * self.width as int + x < self.width as int * self.height as int) by (nonlinear_arith)
                requires
                    x < self.width,
                    y < self.height,
            ;
            assert(y as int * self.width as int <= y as int * self.width as int + x);
            assert(self.pixels@.len() == self.width as int * self.height as int);
        }
        let len = self.pixels.len();
        let row = y as usize * self.width as usize;
        self.pixels[row + x as usize]
    }
}

} // verus!
