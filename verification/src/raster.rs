use vstd::prelude::*;

verus! {

/// An image of bytes with `height` rows, `width` columns and `channels`
/// values per pixel, held in an `ndarray` array of rank three.
///
/// The array is never read by the verifier: what it holds is named by
/// [`image_cells`] and [`image_shape`], and every access goes through one of
/// the short trusted functions below.
#[verifier::external_body]
pub struct Image {
    cells: ndarray::Array3<u8>,
}

/// The bytes of an image in logical order: rows first, then columns, then
/// channels.
pub uninterp spec fn image_cells(image: Image) -> Seq<u8>;

/// The axis lengths of an image: rows, columns, channels.
pub uninterp spec fn image_shape(image: Image) -> (nat, nat, nat);

/// A label map with `height` rows and `width` columns, held in an `ndarray`
/// array of rank two.
#[verifier::external_body]
pub struct LabelMap {
    cells: ndarray::Array2<usize>,
}

/// The labels of a label map in row-major order.
pub uninterp spec fn label_cells(labels: LabelMap) -> Seq<usize>;

/// The axis lengths of a label map: rows, columns.
pub uninterp spec fn label_shape(labels: LabelMap) -> (nat, nat);

/// One number per channel, held in an `ndarray` array of rank one.
#[verifier::external_body]
pub struct ChannelSums {
    cells: ndarray::Array1<u64>,
}

/// The numbers of a per-channel array, first channel first.
pub uninterp spec fn sums_cells(sums: ChannelSums) -> Seq<u64>;

/// An axis length, with one in place of zero.
pub open spec fn nonzero(axis: int) -> int {
    if axis == 0 {
        1
    } else {
        axis
    }
}

/// Whether an array with three axes of these lengths can be made from a
/// buffer of `len` elements: the lengths multiply to `len`, and those that
/// are not zero multiply to no more than the largest signed machine word.
pub open spec fn shape_accepts(height: int, width: int, channels: int, len: int) -> bool {
    &&& nonzero(height) * nonzero(width) * nonzero(channels) <= isize::MAX
    &&& height * width * channels == len
}

/// Whether an array with two axes of these lengths can be made from a buffer
/// of `len` elements.
pub open spec fn plane_accepts(height: int, width: int, len: int) -> bool {
    &&& nonzero(height) * nonzero(width) <= isize::MAX
    &&& height * width == len
}

/// The input does not have the shape that was declared for it.
#[derive(Debug, Clone, Copy, PartialEq, Eq)]
pub struct InputShapeError;

impl Image {
    /// Number of rows.
    pub open spec fn spec_height(&self) -> nat {
        image_shape(*self).0
    }

    /// Number of columns.
    pub open spec fn spec_width(&self) -> nat {
        image_shape(*self).1
    }

    /// Number of values per pixel.
    pub open spec fn spec_channels(&self) -> nat {
        image_shape(*self).2
    }

    /// Position of channel `c` of pixel `(y, x)` in [`image_cells`].
    pub open spec fn cell_index(&self, y: int, x: int, c: int) -> int {
        (y * self.spec_width() + x) * self.spec_channels() + c
    }

    /// Channel `c` of the pixel in row `y`, column `x`.
    pub open spec fn at(&self, y: int, x: int, c: int) -> u8 {
        image_cells(*self)[self.cell_index(y, x, c)]
    }

    /// Whether `(y, x, c)` names a cell of the image.
    pub open spec fn has(&self, y: int, x: int, c: int) -> bool {
        0 <= y < self.spec_height() && 0 <= x < self.spec_width() && 0 <= c < self.spec_channels()
    }

    /// Calls `ndarray`'s `Array3::from_shape_vec` with the shape
    /// `(height, width, channels)` in the default row-major layout. As its
    /// source shows, it succeeds exactly when the shape multiplies to the
    /// buffer's length and the product of the axis lengths that are not zero
    /// does not exceed `isize::MAX`; the array then has that shape and holds
    /// the buffer's bytes in logical order.
    #[verifier::external_body]
    fn array_from_shape_vec(height: usize, width: usize, channels: usize, data: Vec<u8>) -> (res:
        Option<Image>)
        ensures
            res.is_some() <==> shape_accepts(
                height as int,
                width as int,
                channels as int,
                data@.len() as int,
            ),
            res.is_some() ==> image_shape(res.unwrap()) == (
                height as nat,
                width as nat,
                channels as nat,
            ),
            res.is_some() ==> image_cells(res.unwrap()) == data@,
    {
        match ndarray::Array3::from_shape_vec((height, width, channels), data) {
            Ok(cells) => Some(Image { cells }),
            Err(_) => None,
        }
    }

    /// Calls `ndarray`'s `ArrayBase::dim`, which returns the axis lengths.
    /// The array holds one cell for each index below them, and an owned
    /// array keeps the product of its axis lengths that are not zero within
    /// `isize::MAX`.
    #[verifier::external_body]
    fn array_dim(&self) -> (res: (usize, usize, usize))
        ensures
            image_shape(*self) == (res.0 as nat, res.1 as nat, res.2 as nat),
            image_cells(*self).len() == res.0 * res.1 * res.2,
            nonzero(res.0 as int) * nonzero(res.1 as int) * nonzero(res.2 as int) <= isize::MAX,
    {
        self.cells.dim()
    }

    /// Indexes the `ndarray` array with `[[y, x, c]]`, which panics outside
    /// the axis lengths and otherwise returns the cell at that logical
    /// position.
    #[verifier::external_body]
    fn array_get(&self, y: usize, x: usize, c: usize) -> (res: u8)
        requires
            self.has(y as int, x as int, c as int),
        ensures
            res == self.at(y as int, x as int, c as int),
    {
        self.cells[[y, x, c]]
    }

    /// Assigns through `ndarray`'s index `[[y, x, c]]`, which panics outside
    /// the axis lengths and otherwise replaces the cell at that logical
    /// position, leaving the shape and every other cell as they were.
    #[verifier::external_body]
    fn array_set(&mut self, y: usize, x: usize, c: usize, value: u8)
        requires
            old(self).has(y as int, x as int, c as int),
        ensures
            image_shape(*final(self)) == image_shape(*old(self)),
            image_cells(*final(self)) == image_cells(*old(self)).update(
                old(self).cell_index(y as int, x as int, c as int),
                value,
            ),
    {
        self.cells[[y, x, c]] = value;
    }

    /// Makes an image of the given shape from bytes in row-major order
    /// (rows, then columns, then channels).
    ///
    /// Fails when the buffer's length is not `height * width * channels`.
    pub fn from_shape_vec(height: usize, width: usize, channels: usize, data: Vec<u8>) -> (res:
        Result<Image, InputShapeError>)
        ensures
            res.is_ok() <==> shape_accepts(
                height as int,
                width as int,
                channels as int,
                data@.len() as int,
            ),
            res.is_ok() ==> {
                let image = res.unwrap();
                &&& image.spec_height() == height
                &&& image.spec_width() == width
                &&& image.spec_channels() == channels
                &&& image_cells(image) == data@
            },
    {
        match Image::array_from_shape_vec(height, width, channels, data) {
            Some(image) => Ok(image),
            None => Err(InputShapeError),
        }
    }

    /// The axis lengths: rows, columns, channels.
    pub fn dim(&self) -> (res: (usize, usize, usize))
        ensures
            res.0 == self.spec_height(),
            res.1 == self.spec_width(),
            res.2 == self.spec_channels(),
            image_cells(*self).len() == res.0 * res.1 * res.2,
            nonzero(res.0 as int) * nonzero(res.1 as int) * nonzero(res.2 as int) <= isize::MAX,
    {
        self.array_dim()
    }

    /// Channel `c` of the pixel in row `y`, column `x`.
    pub fn get(&self, y: usize, x: usize, c: usize) -> (res: u8)
        requires
            self.has(y as int, x as int, c as int),
        ensures
            res == self.at(y as int, x as int, c as int),
    {
        self.array_get(y, x, c)
    }

    /// Replaces channel `c` of the pixel in row `y`, column `x`.
    pub fn set(&mut self, y: usize, x: usize, c: usize, value: u8)
        requires
            old(self).has(y as int, x as int, c as int),
        ensures
            image_shape(*final(self)) == image_shape(*old(self)),
            image_cells(*final(self)) == image_cells(*old(self)).update(
                old(self).cell_index(y as int, x as int, c as int),
                value,
            ),
    {
        self.array_set(y, x, c, value)
    }
}

impl LabelMap {
    /// Number of rows.
    pub open spec fn spec_height(&self) -> nat {
        label_shape(*self).0
    }

    /// Number of columns.
    pub open spec fn spec_width(&self) -> nat {
        label_shape(*self).1
    }

    /// The label of the pixel in row `y`, column `x`.
    pub open spec fn at(&self, y: int, x: int) -> usize {
        label_cells(*self)[y * self.spec_width() + x]
    }

    /// Whether `(y, x)` names a cell of the map.
    pub open spec fn has(&self, y: int, x: int) -> bool {
        0 <= y < self.spec_height() && 0 <= x < self.spec_width()
    }

    /// Calls `ndarray`'s `Array2::from_shape_vec` with the shape
    /// `(height, width)` in the default row-major layout. As its source
    /// shows, it succeeds exactly when the shape multiplies to the buffer's
    /// length and the product of the axis lengths that are not zero does not
    /// exceed `isize::MAX`; the array then has that shape and holds the
    /// buffer's labels in logical order.
    #[verifier::external_body]
    fn array_from_shape_vec(height: usize, width: usize, data: Vec<usize>) -> (res: Option<
        LabelMap,
    >)
        ensures
            res.is_some() <==> plane_accepts(height as int, width as int, data@.len() as int),
            res.is_some() ==> label_shape(res.unwrap()) == (height as nat, width as nat),
            res.is_some() ==> label_cells(res.unwrap()) == data@,
    {
        match ndarray::Array2::from_shape_vec((height, width), data) {
            Ok(cells) => Some(LabelMap { cells }),
            Err(_) => None,
        }
    }

    /// Calls `ndarray`'s `ArrayBase::dim`, which returns the axis lengths.
    /// The array holds one cell for each index below them, and an owned
    /// array keeps the product of its axis lengths that are not zero within
    /// `isize::MAX`.
    #[verifier::external_body]
    fn array_dim(&self) -> (res: (usize, usize))
        ensures
            label_shape(*self) == (res.0 as nat, res.1 as nat),
            label_cells(*self).len() == res.0 * res.1,
            nonzero(res.0 as int) * nonzero(res.1 as int) <= isize::MAX,
    {
        self.cells.dim()
    }

    /// Indexes the `ndarray` array with `[[y, x]]`, which panics outside the
    /// axis lengths and otherwise returns the cell at that logical position.
    #[verifier::external_body]
    fn array_get(&self, y: usize, x: usize) -> (res: usize)
        requires
            self.has(y as int, x as int),
        ensures
            res == self.at(y as int, x as int),
    {
        self.cells[[y, x]]
    }

    /// Walks the `ndarray` array with `ArrayBase::iter`, which visits the
    /// cells in logical order, and collects them.
    #[verifier::external_body]
    fn array_to_vec(&self) -> (res: Vec<usize>)
        ensures
            res@ == label_cells(*self),
    {
        self.cells.iter().copied().collect()
    }

    /// Makes a label map of the given shape from labels in row-major order.
    ///
    /// Fails when the buffer's length is not `height * width`.
    pub fn from_shape_vec(height: usize, width: usize, data: Vec<usize>) -> (res: Result<
        LabelMap,
        InputShapeError,
    >)
        ensures
            res.is_ok() <==> plane_accepts(height as int, width as int, data@.len() as int),
            res.is_ok() ==> {
                let labels = res.unwrap();
                &&& labels.spec_height() == height
                &&& labels.spec_width() == width
                &&& label_cells(labels) == data@
            },
    {
        match LabelMap::array_from_shape_vec(height, width, data) {
            Some(labels) => Ok(labels),
            None => Err(InputShapeError),
        }
    }

    /// The axis lengths: rows, columns.
    pub fn dim(&self) -> (res: (usize, usize))
        ensures
            res.0 == self.spec_height(),
            res.1 == self.spec_width(),
            label_cells(*self).len() == res.0 * res.1,
            nonzero(res.0 as int) * nonzero(res.1 as int) <= isize::MAX,
    {
        self.array_dim()
    }

    /// The label of the pixel in row `y`, column `x`.
    pub fn get(&self, y: usize, x: usize) -> (res: usize)
        requires
            self.has(y as int, x as int),
        ensures
            res == self.at(y as int, x as int),
    {
        self.array_get(y, x)
    }

    /// The labels in row-major order.
    pub fn to_vec(&self) -> (res: Vec<usize>)
        ensures
            res@ == label_cells(*self),
    {
        self.array_to_vec()
    }
}

impl View for ChannelSums {
    type V = Seq<u64>;

    open spec fn view(&self) -> Seq<u64> {
        sums_cells(*self)
    }
}

impl ChannelSums {
    /// Calls `ndarray`'s `Array1::zeros`, which panics when the length
    /// exceeds `isize::MAX` and otherwise returns that many zeros.
    #[verifier::external_body]
    fn array_zeros(channels: usize) -> (res: ChannelSums)
        requires
            channels <= isize::MAX,
        ensures
            sums_cells(res) == Seq::new(channels as nat, |c: int| 0u64),
    {
        ChannelSums { cells: ndarray::Array1::zeros(channels) }
    }

    /// Calls `ndarray`'s `ArrayBase::len`, the number of cells, which an
    /// array keeps within `isize::MAX`.
    #[verifier::external_body]
    fn array_len(&self) -> (res: usize)
        ensures
            res == sums_cells(*self).len(),
            res <= isize::MAX,
    {
        self.cells.len()
    }

    /// Indexes the `ndarray` array with `[c]`, which panics outside its
    /// length and otherwise returns the cell at that position.
    #[verifier::external_body]
    fn array_get(&self, c: usize) -> (res: u64)
        requires
            c < sums_cells(*self).len(),
        ensures
            res == sums_cells(*self)[c as int],
    {
        self.cells[c]
    }

    /// Assigns through `ndarray`'s index `[c]`, which panics outside the
    /// array's length and otherwise replaces the cell at that position,
    /// leaving every other cell as it was.
    #[verifier::external_body]
    fn array_set(&mut self, c: usize, value: u64)
        requires
            c < sums_cells(*old(self)).len(),
        ensures
            sums_cells(*final(self)) == sums_cells(*old(self)).update(c as int, value),
    {
        self.cells[c] = value;
    }

    /// One zero per channel.
    pub fn zeros(channels: usize) -> (res: ChannelSums)
        requires
            channels <= isize::MAX,
        ensures
            res@.len() == channels,
            forall|c: int| 0 <= c < channels ==> res@[c] == 0,
    {
        ChannelSums::array_zeros(channels)
    }

    /// The number of channels.
    pub fn len(&self) -> (res: usize)
        ensures
            res == self@.len(),
            res <= isize::MAX,
    {
        self.array_len()
    }

    /// The number held for channel `c`.
    pub fn get(&self, c: usize) -> (res: u64)
        requires
            c < self@.len(),
        ensures
            res == self@[c as int],
    {
        self.array_get(c)
    }

    /// Replaces the number held for channel `c`.
    pub fn set(&mut self, c: usize, value: u64)
        requires
            c < old(self)@.len(),
        ensures
            final(self)@ == old(self)@.update(c as int, value),
    {
        self.array_set(c, value)
    }

    /// The numbers as a vector, first channel first.
    pub fn to_vec(&self) -> (res: Vec<u64>)
        ensures
            res@ == self@,
    {
        let n = self.len();
        let mut out: Vec<u64> = Vec::new();
        let mut c: usize = 0;
        while c < n
            invariant
                n == self@.len(),
                c <= n,
                out@ == self@.take(c as int),
            decreases n - c,
        {
            out.push(self.get(c));
            c = c + 1;
        }
        out
    }

    /// A per-channel array holding the numbers of `data`.
    pub fn from_vec(data: &Vec<u64>) -> (res: ChannelSums)
        requires
            data@.len() <= isize::MAX,
        ensures
            res@ == data@,
    {
        let n = data.len();
        let mut out = ChannelSums::zeros(n);
        let mut c: usize = 0;
        while c < n
            invariant
                n == data@.len(),
                c <= n,
                out@.len() == n,
                forall|i: int| 0 <= i < c ==> out@[i] == data@[i],
            decreases n - c,
        {
            out.set(c, data[c]);
            c = c + 1;
        }
        out
    }
}

} // verus!
