use vstd::prelude::*;

verus! {

/// The smaller of two indices.
pub open spec fn min_index(a: int, b: int) -> int {
    if a <= b {
        a
    } else {
        b
    }
}

/// A texture sampled from a decoded image: a grid of pixels indexed `[x][y]`, looked up by
/// nearest neighbour with coordinates clamped to the grid.
pub struct ImageTexture<P> {
    image: Vec<Vec<P>>,
    width: usize,
    height: usize,
}

impl<P: Copy> ImageTexture<P> {
    /// The pixel grid, column by column.
    pub closed spec fn pixels(&self) -> Seq<Seq<P>> {
        self.image@.map_values(|col: Vec<P>| col@)
    }

    /// The number of columns.
    pub closed spec fn spec_width(&self) -> usize {
        self.width
    }

    /// The number of rows.
    pub closed spec fn spec_height(&self) -> usize {
        self.height
    }

    /// A non-empty grid whose columns all have `height` pixels.
    pub open spec fn wf(&self) -> bool {
        &&& self.spec_width() > 0
        &&& self.spec_height() > 0
        &&& self.pixels().len() == self.spec_width()
        &&& forall|x: int|
            0 <= x < self.spec_width() ==> #[trigger] self.pixels()[x].len() == self.spec_height()
    }

    /// A texture over `image`, a non-empty grid of columns of equal, non-zero height.
    pub fn new(image: Vec<Vec<P>>) -> (r: Self)
        requires
            image.len() > 0,
            image[0].len() > 0,
            forall|x: int| 0 <= x < image.len() ==> #[trigger] image[x].len() == image[0].len(),
        ensures
            r.wf(),
            r.pixels() == image@.map_values(|col: Vec<P>| col@),
            r.spec_width() == image.len(),
            r.spec_height() == image[0].len(),
    {
        let width = image.len();
        let height = image[0].len();
        let r = ImageTexture { image, width, height };
        assert forall|x: int| 0 <= x < r.spec_width() implies #[trigger] r.pixels()[x].len()
            == r.spec_height() by {
            assert(r.pixels()[x] == r.image@[x]@);
            assert(image[x].len() == image[0].len());
        }
        r
    }

    /// The number of columns.
    #[verifier::when_used_as_spec(spec_width)]
    pub fn width(&self) -> (r: usize)
        ensures
            r == self.spec_width(),
    {
        self.width
    }

    /// The number of rows.
    #[verifier::when_used_as_spec(spec_height)]
    pub fn height(&self) -> (r: usize)
        ensures
            r == self.spec_height(),
    {
        self.height
    }

    /// The pixel at column `x` and row `y`, each clamped to the last one of the grid.
    pub fn texel(&self, x: usize, y: usize) -> (r: P)
        requires
            self.wf(),
        ensures
            r == self.pixels()[min_index(x as int, self.width() - 1)][min_index(
                y as int,
                self.height() - 1,
            )],
    {
        let x = if x < self.width - 1 {
            x
        } else {
            self.width - 1
        };
        let y = if y < self.height - 1 {
            y
        } else {
            self.height - 1
        };
        assert(self.pixels()[x as int] == self.image@[x as int]@);
        self.image[x][y]
    }
}

} // verus!
