use vstd::prelude::*;

verus! {

/// A rectangle of pixels, as mathematics sees it: `rows[y][x]` is the pixel in
/// column `x` of row `y`.
pub struct Surface {
    pub width: nat,
    pub rows: Seq<Seq<u8>>,
}

impl Surface {
    /// The number of rows.
    pub open spec fn height(self) -> nat {
        self.rows.len()
    }

    /// Whether column `x` of row `y` lies on the surface.
    pub open spec fn covers(self, x: int, y: int) -> bool {
        0 <= x < self.width && 0 <= y < self.rows.len()
    }

    /// The pixel in column `x` of row `y`.
    pub open spec fn pixel(self, x: int, y: int) -> u8 {
        self.rows[y][x]
    }

    /// Whether the surface has any pixel at all.
    pub open spec fn has_pixels(self) -> bool {
        self.width > 0 && self.rows.len() > 0
    }

    /// The surface of the given size whose pixels are all zero.
    pub open spec fn blank(width: nat, height: nat) -> Surface {
        Surface { width, rows: Seq::new(height, |y: int| Seq::new(width, |x: int| 0u8)) }
    }

    /// This surface with one pixel replaced.
    pub open spec fn with_pixel(self, x: int, y: int, value: u8) -> Surface {
        Surface { width: self.width, rows: self.rows.update(y, self.rows[y].update(x, value)) }
    }

    /// The pixel that column `x` of row `y` shows once `other` has been copied
    /// onto this surface with its top-left corner at `(left, top)`: the pixel of
    /// `other` where `other` lands, the old pixel elsewhere on the old surface,
    /// and zero on ground that the surface had to gain.
    pub open spec fn pixel_under(self, other: Surface, left: int, top: int, x: int, y: int) -> u8 {
        if other.covers(x - left, y - top) {
            other.pixel(x - left, y - top)
        } else if self.covers(x, y) {
            self.pixel(x, y)
        } else {
            0u8
        }
    }

    /// This surface after `other` has been copied onto it with its top-left
    /// corner at `(left, top)`. The surface grows as far as the copy needs: the
    /// result is the smallest rectangle that holds the old surface and the
    /// pixels copied. A surface without pixels changes nothing.
    pub open spec fn blit(self, other: Surface, left: int, top: int) -> Surface {
        if !other.has_pixels() {
            self
        } else {
            let width = if self.width >= left + other.width {
                self.width as int
            } else {
                left + other.width
            };
            let height = if self.height() >= top + other.height() {
                self.height() as int
            } else {
                top + other.height()
            };
            Surface {
                width: width as nat,
                rows: Seq::new(
                    height as nat,
                    |y: int| Seq::new(width as nat, |x: int| self.pixel_under(other, left, top, x, y)),
                ),
            }
        }
    }
}

/// A pixel buffer: rows of bytes, all of one width. The buffer keeps its width
/// when it has no rows.
#[derive(Debug, PartialEq, Eq)]
pub struct Bitmap {
    width: usize,
    rows: Vec<Vec<u8>>,
}

impl View for Bitmap {
    type V = Surface;

    closed spec fn view(&self) -> Surface {
        Surface { width: self.width as nat, rows: Seq::new(self.rows@.len(), |y: int| self.rows@[y]@) }
    }
}

/// A row of `width` zero pixels.
fn blank_row(width: usize) -> (row: Vec<u8>)
    ensures
        row@ == Seq::new(width as nat, |x: int| 0u8),
{
    let mut row: Vec<u8> = Vec::new();
    let mut x: usize = 0;
    while x < width
        invariant
            x <= width,
            row@ == Seq::new(x as nat, |x: int| 0u8),
        decreases width - x,
    {
        row.push(0u8);
        x += 1;
    }
    row
}

impl Bitmap {
    #[verifier::type_invariant]
    spec fn rows_match_width(self) -> bool {
        forall|y: int| 0 <= y < self.rows@.len() ==> (#[trigger] self.rows@[y])@.len() == self.width
    }

    /// A bitmap of the given size with every pixel zero.
    pub fn new(width: usize, height: usize) -> (bitmap: Bitmap)
        ensures
            bitmap@ == Surface::blank(width as nat, height as nat),
    {
        let mut rows: Vec<Vec<u8>> = Vec::new();
        let mut y: usize = 0;
        while y < height
            invariant
                y <= height,
                rows@.len() == y,
                forall|r: int| 0 <= r < y ==> (#[trigger] rows@[r])@ == Seq::new(width as nat, |x: int| 0u8),
            decreases height - y,
        {
            rows.push(blank_row(width));
            y += 1;
        }
        let bitmap = Bitmap { width, rows };
        assert(bitmap@.rows =~= Surface::blank(width as nat, height as nat).rows);
        bitmap
    }

    pub fn width(&self) -> (width: usize)
        ensures
            width == self@.width,
    {
        self.width
    }

    pub fn height(&self) -> (height: usize)
        ensures
            height == self@.height(),
    {
        self.rows.len()
    }

    /// The pixel in column `x` of row `y`, if the bitmap has one there.
    pub fn get(&self, x: usize, y: usize) -> (pixel: Option<u8>)
        ensures
            pixel == if self@.covers(x as int, y as int) {
                Some(self@.pixel(x as int, y as int))
            } else {
                None
            },
    {
        proof {
            use_type_invariant(self);
        }
        if y < self.rows.len() && x < self.width {
            Some(self.rows[y][x])
        } else {
            None
        }
    }

    /// Writes one pixel. A place outside the bitmap is left alone, and the
    /// result says whether the pixel was written.
    pub fn set(&mut self, x: usize, y: usize, value: u8) -> (written: bool)
        ensures
            written == old(self)@.covers(x as int, y as int),
            final(self)@ == if written {
                old(self)@.with_pixel(x as int, y as int, value)
            } else {
                old(self)@
            },
    {
        proof {
            use_type_invariant(&*self);
        }
        if y < self.rows.len() && x < self.width {
            let mut rows: Vec<Vec<u8>> = Vec::new();
            std::mem::swap(&mut rows, &mut self.rows);
            rows[y][x] = value;
            self.rows = rows;
            assert(self@.rows =~= old(self)@.with_pixel(x as int, y as int, value).rows);
            true
        } else {
            false
        }
    }

    /// The pixel that column `x` of row `y` shows once `other` lies on this
    /// bitmap with its top-left corner at `pos`.
    fn pixel_under(&self, other: &Bitmap, pos: (usize, usize), x: usize, y: usize) -> (pixel: u8)
        ensures
            pixel == self@.pixel_under(other@, pos.0 as int, pos.1 as int, x as int, y as int),
    {
        proof {
            use_type_invariant(self);
            use_type_invariant(other);
        }
        if x >= pos.0 && x - pos.0 < other.width && y >= pos.1 && y - pos.1 < other.rows.len() {
            other.rows[y - pos.1][x - pos.0]
        } else if y < self.rows.len() && x < self.width {
            self.rows[y][x]
        } else {
            0u8
        }
    }

    /// Copies `other` onto this bitmap with its top-left corner at `pos`. The
    /// bitmap grows to the right and downwards as far as the copy needs; ground
    /// gained that the copy does not cover is zero. A bitmap without pixels
    /// changes nothing.
    pub fn blit(&mut self, other: &Bitmap, pos: (usize, usize))
        requires
            other@.has_pixels() ==> pos.0 + other@.width <= usize::MAX && pos.1 + other@.height()
                <= usize::MAX,
        ensures
            final(self)@ == old(self)@.blit(other@, pos.0 as int, pos.1 as int),
    {
        if other.width == 0 || other.rows.len() == 0 {
            return;
        }
        let right = pos.0 + other.width;
        let bottom = pos.1 + other.rows.len();
        let width = if self.width >= right { self.width } else { right };
        let height = if self.rows.len() >= bottom { self.rows.len() } else { bottom };
        let ghost before = self@;
        let ghost left = pos.0 as int;
        let ghost top = pos.1 as int;
        let mut rows: Vec<Vec<u8>> = Vec::new();
        let mut y: usize = 0;
        while y < height
            invariant
                y <= height,
                rows@.len() == y,
                self@ == before,
                left == pos.0 as int,
                top == pos.1 as int,
                forall|r: int| 0 <= r < y ==> (#[trigger] rows@[r])@ == Seq::new(
                    width as nat,
                    |c: int| before.pixel_under(other@, left, top, c, r),
                ),
            decreases height - y,
        {
            let mut row: Vec<u8> = Vec::new();
            let mut x: usize = 0;
            while x < width
                invariant
                    x <= width,
                    self@ == before,
                    left == pos.0 as int,
                    top == pos.1 as int,
                    row@ == Seq::new(x as nat, |c: int| before.pixel_under(other@, left, top, c, y as int)),
                decreases width - x,
            {
                let pixel = self.pixel_under(other, pos, x, y);
                row.push(pixel);
                x += 1;
            }
            rows.push(row);
            y += 1;
        }
        *self = Bitmap { width, rows };
        assert(self@.rows =~= before.blit(other@, left, top).rows);
    }
}

} // verus!
