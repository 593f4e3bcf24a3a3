//! Sources of colors.

use vstd::prelude::*;
use crate::color::Rgb8;

verus! {

/// A source of colors arranged in a small multidimensional space.
pub trait ColorSource: Sized {
    /// The size of each dimension.
    spec fn dims_spec(&self) -> Seq<usize>;

    /// The color at the given coordinates.
    spec fn color_at(&self, coords: Seq<int>) -> Rgb8;

    /// Get the size of each dimension in this space.
    fn dimensions(&self) -> (d: Vec<usize>)
        ensures
            d@ == self.dims_spec(),
    ;

    /// Get the color at some particular coordinates.
    fn get_color(&self, coords: &Vec<usize>) -> (c: Rgb8)
        requires
            coords@.len() == self.dims_spec().len(),
            forall|i: int|
                0 <= i < coords@.len() ==> #[trigger] coords@[i] < self.dims_spec()[i],
        ensures
            c == self.color_at(coords@.map_values(|x: usize| x as int)),
    ;
}

/// The entire RGB space, at a chosen bit depth per channel.
#[derive(Debug)]
pub struct AllColors {
    rbits: u64,
    gbits: u64,
    bbits: u64,
}

impl AllColors {
    /// The channel depths never exceed eight bits.
    #[verifier::type_invariant]
    spec fn depths_ok(self) -> bool {
        self.rbits <= 8 && self.gbits <= 8 && self.bbits <= 8
    }

    /// Creates an AllColors source with the given bit depths.
    pub fn new(r: u64, g: u64, b: u64) -> (s: Self)
        requires
            r <= 8,
            g <= 8,
            b <= 8,
        ensures
            s.dims_spec() =~= seq![(1u64 << r) as usize, (1u64 << g) as usize, (1u64 << b) as usize],
    {
        AllColors { rbits: r, gbits: g, bbits: b }
    }
}

impl ColorSource for AllColors {
    closed spec fn dims_spec(&self) -> Seq<usize> {
        seq![
            (1u64 << self.rbits) as usize,
            (1u64 << self.gbits) as usize,
            (1u64 << self.bbits) as usize,
        ]
    }

    closed spec fn color_at(&self, coords: Seq<int>) -> Rgb8 {
        Rgb8 {
            r: ((coords[0] as u64) << (8 - self.rbits) as u64) as u8,
            g: ((coords[1] as u64) << (8 - self.gbits) as u64) as u8,
            b: ((coords[2] as u64) << (8 - self.bbits) as u64) as u8,
        }
    }

    fn dimensions(&self) -> (d: Vec<usize>) {
        proof {
            use_type_invariant(self);
        }
        let mut d: Vec<usize> = Vec::new();
        d.push((1u64 << self.rbits) as usize);
        d.push((1u64 << self.gbits) as usize);
        d.push((1u64 << self.bbits) as usize);
        proof {
            assert(d@ =~= self.dims_spec());
        }
        d
    }

    fn get_color(&self, coords: &Vec<usize>) -> (c: Rgb8) {
        proof {
            use_type_invariant(self);
        }
        let c = Rgb8 {
            r: ((coords[0] as u64) << (8 - self.rbits)) as u8,
            g: ((coords[1] as u64) << (8 - self.gbits)) as u8,
            b: ((coords[2] as u64) << (8 - self.bbits)) as u8,
        };
        c
    }
}

/// Colors drawn from a rectangular grid, row by row.
#[derive(Debug)]
pub struct ImageColors {
    width: usize,
    height: usize,
    pixels: Vec<Rgb8>,
}

impl ImageColors {
    /// The grid is rectangular: as many pixels as the two sides multiply to,
    /// each side of bounded size.
    #[verifier::type_invariant]
    spec fn grid_ok(self) -> bool {
        &&& self.width * self.height == self.pixels@.len()
        &&& self.width <= 0x10000
        &&& self.height <= 0x4000
    }

    /// Wraps a grid of pixels given in row-major order.
    pub fn new(width: usize, height: usize, pixels: Vec<Rgb8>) -> (s: Self)
        requires
            width * height == pixels@.len(),
            width <= 0x10000,
            height <= 0x4000,
        ensures
            s.dims_spec() =~= seq![width, height],
    {
        let s = ImageColors { width, height, pixels };
        proof {
            assert(s.dims_spec() =~= seq![width, height]);
        }
        s
    }
}

impl ColorSource for ImageColors {
    closed spec fn dims_spec(&self) -> Seq<usize> {
        seq![self.width, self.height]
    }

    closed spec fn color_at(&self, coords: Seq<int>) -> Rgb8 {
        self.pixels@[coords[0] + coords[1] * self.width]
    }

    fn dimensions(&self) -> (d: Vec<usize>) {
        let mut d: Vec<usize> = Vec::new();
        d.push(self.width);
        d.push(self.height);
        proof {
            assert(d@ =~= seq![self.width, self.height]);
        }
        d
    }

    fn get_color(&self, coords: &Vec<usize>) -> (c: Rgb8) {
        proof {
            use_type_invariant(self);
        }
        let x = coords[0];
        let y = coords[1];
        proof {
            assert(x < self.width && y < self.height);
            assert(x + y * self.width < self.width * self.height) by (nonlinear_arith)
                requires
                    x < self.width,
                    y < self.height,
            ;
            assert(y * self.width <= 0x40000000) by (nonlinear_arith)
                requires
                    y <= 0x4000,
                    self.width <= 0x10000,
            ;
        }
        self.pixels[x + y * self.width]
    }
}

} // verus!
