//! Geometry of the memory-mapped store of training rows: row sizes, how far
//! the backing file grows, how many rows an existing file holds, and the
//! bounds that row reads and appends must respect. The file and the mapping
//! themselves are handled by the caller.

use vstd::prelude::*;

use crate::disk_observation::ENNError;
use crate::text::{decimal, push_decimal};

verus! {

/// Bytes of one stored value (`f64`).
pub const VALUE_BYTES: usize = 8;

/// Rows of `ncols` values stored back to back; `nrows` of them are written.
#[derive(Debug, Clone, Copy, PartialEq, Eq, Structural)]
pub struct RowLayout {
    pub ncols: usize,
    pub nrows: usize,
}

/// `a * b`, capped at `usize::MAX`.
pub open spec fn saturating_product(a: int, b: int) -> int {
    if a * b > usize::MAX {
        usize::MAX as int
    } else {
        a * b
    }
}

/// A row's size in bytes fits in `usize`.
pub open spec fn row_fits(ncols: usize) -> bool {
    ncols * VALUE_BYTES <= usize::MAX
}

impl RowLayout {
    /// Bytes of one row.
    pub fn row_bytes(&self) -> (r: usize)
        requires
            row_fits(self.ncols),
        ensures
            r == self.ncols * VALUE_BYTES,
    {
        self.ncols * VALUE_BYTES
    }

    /// Bytes of `nrows` rows, capped at `usize::MAX`.
    pub fn bytes_for_rows(&self, nrows: usize) -> (r: usize)
        requires
            row_fits(self.ncols),
        ensures
            r == saturating_product(nrows as int, self.ncols * VALUE_BYTES),
    {
        let row = self.row_bytes();
        match nrows.checked_mul(row) {
            Some(n) => n,
            None => usize::MAX,
        }
    }

    /// The length the backing file must grow to so that `need_rows` rows fit,
    /// or `None` when the `mapped_bytes` already mapped hold them. The file
    /// grows to exactly the bytes of the rows needed, with no tail reserved
    /// past them.
    pub fn grown_len(&self, need_rows: usize, mapped_bytes: usize) -> (r: Option<usize>)
        requires
            row_fits(self.ncols),
        ensures
            if saturating_product(need_rows as int, self.ncols * VALUE_BYTES) <= mapped_bytes {
                r is None
            } else {
                r == Some(saturating_product(need_rows as int, self.ncols * VALUE_BYTES) as usize)
            },
    {
        let need_bytes = self.bytes_for_rows(need_rows);
        if need_bytes <= mapped_bytes {
            return None;
        }
        Some(need_bytes)
    }

    /// Opens the layout of an existing file of `file_len` bytes: the claimed
    /// `known_nrows` when given and covered by the file, else as many whole
    /// rows as the file holds (none when rows are empty).
    pub fn open(ncols: usize, file_len: u64, known_nrows: Option<usize>) -> (r: Result<Self, ENNError>)
        requires
            row_fits(ncols),
            file_len <= usize::MAX,
            known_nrows matches Some(k) ==> k * ncols * VALUE_BYTES <= usize::MAX,
        ensures
            match known_nrows {
                Some(k) => if k * ncols * VALUE_BYTES > file_len {
                    r matches Err(e) && e.message() == "known_nrows "@ + decimal(k as nat)
                        + " exceeds train file bytes "@ + decimal(file_len as nat)
                } else {
                    r == Ok::<RowLayout, ENNError>(RowLayout { ncols, nrows: k })
                },
                None => r == Ok::<RowLayout, ENNError>(
                    RowLayout {
                        ncols,
                        nrows: if ncols == 0 {
                            0
                        } else {
                            (file_len / (ncols * VALUE_BYTES) as u64) as usize
                        },
                    },
                ),
            },
    {
        let row_bytes = ncols * VALUE_BYTES;
        let len = file_len as usize;
        match known_nrows {
            Some(k) => {
                assert(k * row_bytes == k * ncols * VALUE_BYTES) by (nonlinear_arith)
                    requires
                        row_bytes == ncols * VALUE_BYTES,
                ;
                if k * row_bytes > len {
                    let mut m = String::from_str("known_nrows ");
                    push_decimal(&mut m, k as u64);
                    m.append(" exceeds train file bytes ");
                    push_decimal(&mut m, file_len);
                    proof {
                        reveal_strlit("known_nrows ");
                        reveal_strlit(" exceeds train file bytes ");
                        assert(m@ =~= "known_nrows "@ + decimal(k as nat) + " exceeds train file bytes "@
                            + decimal(file_len as nat));
                    }
                    return Err(ENNError::InvalidParameter(m));
                }
                Ok(RowLayout { ncols, nrows: k })
            },
            None => {
                let nrows = if row_bytes > 0 {
                    len / row_bytes
                } else {
                    0
                };
                Ok(RowLayout { ncols, nrows })
            },
        }
    }

    /// The byte range of written row `i`, or why there is no such row.
    pub fn row_span(&self, i: usize) -> (r: Result<(usize, usize), ENNError>)
        requires
            self.nrows * self.ncols * VALUE_BYTES <= usize::MAX,
        ensures
            match r {
                Ok((start, end)) => i < self.nrows && start == i * self.ncols * VALUE_BYTES && end == start
                    + self.ncols * VALUE_BYTES,
                Err(e) => i >= self.nrows && e.message() == "row "@ + decimal(i as nat) + " out of range [0, "@
                    + decimal(self.nrows as nat) + ")"@,
            },
    {
        if i >= self.nrows {
            let mut m = String::from_str("row ");
            push_decimal(&mut m, i as u64);
            m.append(" out of range [0, ");
            push_decimal(&mut m, self.nrows as u64);
            m.append(")");
            proof {
                reveal_strlit("row ");
                reveal_strlit(" out of range [0, ");
                reveal_strlit(")");
                assert(m@ =~= "row "@ + decimal(i as nat) + " out of range [0, "@ + decimal(self.nrows as nat)
                    + ")"@);
            }
            return Err(ENNError::InvalidParameter(m));
        }
        proof {
            assert((i + 1) * self.ncols * VALUE_BYTES <= self.nrows * self.ncols * VALUE_BYTES) by (nonlinear_arith)
                requires
                    i < self.nrows,
            ;
            assert((i + 1) * self.ncols * VALUE_BYTES == i * self.ncols * VALUE_BYTES + self.ncols * VALUE_BYTES)
                by (nonlinear_arith);
        }
        let row = self.ncols * VALUE_BYTES;
        let start = i * self.ncols * VALUE_BYTES;
        Ok((start, start + row))
    }

    /// Checks that rows `start..end` lie within the written rows.
    pub fn check_range(&self, start: usize, end: usize) -> (r: Result<(), ENNError>)
        ensures
            match r {
                Ok(()) => start <= end && end <= self.nrows,
                Err(e) => if start > end {
                    e.message() == "mmap_row_range: start "@ + decimal(start as nat) + " > end "@ + decimal(
                        end as nat,
                    )
                } else {
                    end > self.nrows && e.message() == "mmap_row_range end "@ + decimal(end as nat)
                        + " out of range [0, "@ + decimal(self.nrows as nat) + ")"@
                },
            },
    {
        if start > end {
            let mut m = String::from_str("mmap_row_range: start ");
            push_decimal(&mut m, start as u64);
            m.append(" > end ");
            push_decimal(&mut m, end as u64);
            proof {
                reveal_strlit("mmap_row_range: start ");
                reveal_strlit(" > end ");
                assert(m@ =~= "mmap_row_range: start "@ + decimal(start as nat) + " > end "@ + decimal(end as nat));
            }
            return Err(ENNError::InvalidParameter(m));
        }
        if end > self.nrows {
            let mut m = String::from_str("mmap_row_range end ");
            push_decimal(&mut m, end as u64);
            m.append(" out of range [0, ");
            push_decimal(&mut m, self.nrows as u64);
            m.append(")");
            proof {
                reveal_strlit("mmap_row_range end ");
                reveal_strlit(" out of range [0, ");
                reveal_strlit(")");
                assert(m@ =~= "mmap_row_range end "@ + decimal(end as nat) + " out of range [0, "@ + decimal(
                    self.nrows as nat,
                ) + ")"@);
            }
            return Err(ENNError::InvalidParameter(m));
        }
        Ok(())
    }

    /// The written row count after appending `rows` rows of `cols` values:
    /// unchanged for no rows, an error when the widths differ.
    pub fn appended(&self, rows: usize, cols: usize) -> (r: Result<usize, ENNError>)
        requires
            rows > 0 && cols == self.ncols ==> self.nrows + rows <= usize::MAX,
        ensures
            match r {
                Ok(n) => if rows == 0 {
                    n == self.nrows
                } else {
                    cols == self.ncols && n == self.nrows + rows
                },
                Err(e) => {
                    &&& rows > 0
                    &&& cols != self.ncols
                    &&& e matches ENNError::InvalidShape { expected, got }
                    &&& expected@ == seq![self.nrows, self.ncols]
                    &&& got@ == seq![rows, cols]
                },
            },
    {
        if rows == 0 {
            return Ok(self.nrows);
        }
        if cols != self.ncols {
            let expected = vec![self.nrows, self.ncols];
            let got = vec![rows, cols];
            return Err(ENNError::InvalidShape { expected, got });
        }
        Ok(self.nrows + rows)
    }
}

} // verus!
