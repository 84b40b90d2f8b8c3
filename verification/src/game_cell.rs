use vstd::prelude::*;

verus! {

/// The display bucket (color key) that a cell of the given value is drawn
/// with. Bucket 0 is the empty cell; buckets 1 through 11 are the tile values
/// 2, 4, ..., 2048; values beyond the known palette share one overflow bucket.
pub open spec fn bucket_of(value: int) -> u32 {
    if value == 0 {
        0
    } else if value == 2 {
        1
    } else if value == 4 {
        2
    } else if value == 8 {
        3
    } else if value == 16 {
        4
    } else if value == 32 {
        5
    } else if value == 64 {
        6
    } else if value == 128 {
        7
    } else if value == 256 {
        8
    } else if value == 512 {
        9
    } else if value == 1024 {
        10
    } else if value == 2048 {
        11
    } else {
        12
    }
}

/// Executable form of `bucket_of`.
pub fn bucket_for_value(value: u64) -> (b: u32)
    ensures
        b == bucket_of(value as int),
{
    if value == 0 {
        0
    } else if value == 2 {
        1
    } else if value == 4 {
        2
    } else if value == 8 {
        3
    } else if value == 16 {
        4
    } else if value == 32 {
        5
    } else if value == 64 {
        6
    } else if value == 128 {
        7
    } else if value == 256 {
        8
    } else if value == 512 {
        9
    } else if value == 1024 {
        10
    } else if value == 2048 {
        11
    } else {
        12
    }
}

/// One grid position: its numeric value (0 means empty), its coordinates in
/// the owning board, and the display bucket its background is drawn with.
#[derive(Clone, Copy, Debug)]
pub struct Cell2048 {
    pub value: u64,
    pub row: usize,
    pub col: usize,
    pub bucket: u32,
}

impl Cell2048 {
    pub fn new(value: u64, row: usize, col: usize, bucket: u32) -> (c: Cell2048)
        ensures
            c.value == value,
            c.row == row,
            c.col == col,
            c.bucket == bucket,
    {
        Cell2048 { value, row, col, bucket }
    }

    /// A cell is empty exactly when its value is 0.
    pub fn is_empty(&self) -> (r: bool)
        ensures
            r == (self.value == 0),
    {
        self.value == 0
    }

    /// Take over another cell's value and display bucket, keeping this cell's
    /// position.
    pub fn devour(&mut self, cell: &Cell2048)
        ensures
            final(self).value == cell.value,
            final(self).bucket == cell.bucket,
            final(self).row == old(self).row,
            final(self).col == old(self).col,
    {
        self.value = cell.value;
        self.bucket = cell.bucket;
    }

    /// Take over another cell's value only, keeping this cell's position and
    /// display bucket.
    pub fn devour_soft(&mut self, cell: &Cell2048)
        ensures
            final(self).value == cell.value,
            final(self).bucket == old(self).bucket,
            final(self).row == old(self).row,
            final(self).col == old(self).col,
    {
        self.value = cell.value;
    }

    /// Merge another cell of equal value into this one; the new value is the
    /// sum of the two, which is also returned (it is the score gain).
    pub fn accumulate(&mut self, cell: &Cell2048) -> (sum: u64)
        requires
            old(self).value + cell.value <= u64::MAX,
        ensures
            final(self).value == old(self).value + cell.value,
            sum == final(self).value,
            final(self).bucket == old(self).bucket,
            final(self).row == old(self).row,
            final(self).col == old(self).col,
    {
        self.value = self.value + cell.value;
        self.value
    }

    /// Clear the cell back to empty.
    pub fn reset(&mut self)
        ensures
            final(self).value == 0,
            final(self).bucket == old(self).bucket,
            final(self).row == old(self).row,
            final(self).col == old(self).col,
    {
        self.value = 0;
    }

    /// Recompute the display bucket from the current value.
    pub fn update_background(&mut self)
        ensures
            final(self).value == old(self).value,
            final(self).row == old(self).row,
            final(self).col == old(self).col,
            final(self).bucket == bucket_of(old(self).value as int),
    {
        self.bucket = bucket_for_value(self.value);
    }
}

} // verus!
