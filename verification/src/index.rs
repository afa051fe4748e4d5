//! Index drivers, the errors that index construction and search report, the
//! checks of a search request and the padding and trimming of its result rows.

use vstd::prelude::*;

use crate::text::{decimal, push_decimal};

verus! {

/// Errors reported by index construction and search.
#[derive(Debug, Clone, PartialEq, Eq)]
pub enum IndexError {
    InvalidShape { expected: usize, got: usize },
    InvalidParameter(String),
}

impl IndexError {
    /// The text of the error.
    pub open spec fn message(&self) -> Seq<char> {
        match self {
            IndexError::InvalidShape { expected, got } => "Invalid shape: expected "@ + decimal(
                *expected as nat,
            ) + " dims, got "@ + decimal(*got as nat),
            IndexError::InvalidParameter(m) => "Invalid search parameter: "@ + m@,
        }
    }

    /// The text of the error.
    pub fn to_string(&self) -> (r: String)
        ensures
            r@ == self.message(),
    {
        match self {
            IndexError::InvalidShape { expected, got } => {
                let mut m = crate::text::message_with("Invalid shape: expected ", *expected as u64);
                m.append(" dims, got ");
                crate::text::push_decimal(&mut m, *got as u64);
                m
            },
            IndexError::InvalidParameter(p) => {
                let mut m = String::from_str("Invalid search parameter: ");
                m.append(p.as_str());
                m
            },
        }
    }
}

/// Nearest-neighbour index implementation.
#[derive(Debug, Clone, Copy, PartialEq, Eq, Structural)]
pub enum IndexDriver {
    Exact,
    /// Exact CPU/accelerator race calibrated from real query shapes.
    Auto,
    /// Device-native Apple GPU binary-archive execution.
    Agx,
    /// USearch HNSW shortlist with deterministic exact-distance reranking.
    USearch,
    /// B+ANN disk index.
    BpAnnDisk,
    /// Apple Metal backend for native quantized-weight paths.
    Metal,
    /// OpenCL backend for native quantized-weight paths.
    OpenCl,
    /// NVIDIA CUDA exact index.
    Cuda,
}

impl Default for IndexDriver {
    fn default() -> (r: Self)
        ensures
            r == IndexDriver::Exact,
    {
        IndexDriver::Exact
    }
}

/// Whether `driver` keeps its index on disk.
pub fn is_disk_index_driver(driver: IndexDriver) -> (r: bool)
    ensures
        r == (driver == IndexDriver::BpAnnDisk),
{
    match driver {
        IndexDriver::BpAnnDisk => true,
        _ => false,
    }
}

/// The Faiss index description used for a driver routed to Faiss; only the
/// exact driver is.
pub fn faiss_spec(driver: IndexDriver) -> (r: &'static str)
    requires
        driver == IndexDriver::Exact,
    ensures
        r@ == "Flat"@,
{
    "Flat"
}

/// Wraps an error message from an index implementation.
pub fn index_error(error: String) -> (r: IndexError)
    ensures
        r == IndexError::InvalidParameter(error),
{
    IndexError::InvalidParameter(error)
}

/// Narrows a count to `u32`, naming it in the error when it does not fit.
pub fn to_u32(value: usize, name: &str) -> (r: Result<u32, IndexError>)
    ensures
        match r {
            Ok(v) => value <= u32::MAX && v == value,
            Err(e) => value > u32::MAX && (e matches IndexError::InvalidParameter(m) && m@ == name@
                + " exceeds u32 range"@),
        },
{
    if value <= 4_294_967_295 {
        Ok(value as u32)
    } else {
        let mut m = String::from_str(name);
        m.append(" exceeds u32 range");
        Err(IndexError::InvalidParameter(m))
    }
}

/// Decimal rendering of a signed count, with a leading minus when negative.
pub open spec fn signed_decimal(i: int) -> Seq<char> {
    if i < 0 {
        "-"@ + decimal((-i) as nat)
    } else {
        decimal(i as nat)
    }
}

/// Checks the dimension of a query or an added batch against the index.
pub fn check_dims(num_dim: usize, got: usize) -> (r: Result<(), IndexError>)
    ensures
        match r {
            Ok(()) => got == num_dim,
            Err(e) => got != num_dim && e == (IndexError::InvalidShape { expected: num_dim, got }),
        },
{
    if got != num_dim {
        return Err(IndexError::InvalidShape { expected: num_dim, got });
    }
    Ok(())
}

/// Checks a search request of `search_k` neighbours for queries of `dims`
/// values against an index of `num_dim` dimensions holding `n_train` rows.
/// Returns the number of neighbours asked for and the number the index can
/// give (none from an empty index, whose results are padding only).
pub fn search_plan(search_k: i32, dims: usize, num_dim: usize, n_train: usize) -> (r: Result<
    (usize, usize),
    IndexError,
>)
    ensures
        match r {
            Ok((k, k_eff)) => {
                &&& search_k > 0
                &&& dims == num_dim
                &&& k == search_k
                &&& k_eff == if n_train < search_k {
                    n_train as int
                } else {
                    search_k as int
                }
            },
            Err(e) => if search_k <= 0 {
                e matches IndexError::InvalidParameter(m) && m@ == "search_k must be > 0, got "@ + signed_decimal(
                    search_k as int,
                )
            } else {
                dims != num_dim && e == (IndexError::InvalidShape { expected: num_dim, got: dims })
            },
        },
{
    if search_k <= 0 {
        let mut m = String::from_str("search_k must be > 0, got ");
        if search_k < 0 {
            m.append("-");
        }
        let magnitude: u64 = if search_k < 0 {
            (0 - (search_k as i64)) as u64
        } else {
            search_k as u64
        };
        push_decimal(&mut m, magnitude);
        proof {
            reveal_strlit("search_k must be > 0, got ");
            reveal_strlit("-");
            assert(m@ =~= "search_k must be > 0, got "@ + signed_decimal(search_k as int));
        }
        return Err(IndexError::InvalidParameter(m));
    }
    if dims != num_dim {
        return Err(IndexError::InvalidShape { expected: num_dim, got: dims });
    }
    let k = search_k as usize;
    let k_eff = if n_train < k {
        n_train
    } else {
        k
    };
    Ok((k, k_eff))
}

/// The neighbour columns a search keeps out of `found`: all of them, or,
/// when the nearest one is excluded, those after the first. Returns the first
/// kept column and how many are kept.
pub fn kept_columns(found: usize, exclude_nearest: bool) -> (r: (usize, usize))
    ensures
        !exclude_nearest ==> r == (0usize, found),
        exclude_nearest && found <= 1 ==> r == (0usize, 0usize),
        exclude_nearest && found > 1 ==> r == (1usize, (found - 1) as usize),
{
    if !exclude_nearest {
        (0, found)
    } else if found <= 1 {
        (0, 0)
    } else {
        (1, found - 1)
    }
}

/// `row` widened to `width` columns with `fill`; a row already that wide
/// stays as it is.
pub open spec fn padded<T>(row: Seq<T>, width: nat, fill: T) -> Seq<T> {
    if row.len() >= width {
        row
    } else {
        row + Seq::new((width - row.len()) as nat, |j: int| fill)
    }
}

/// The columns of `row` that a search keeps: all of them, or, when the
/// nearest one is excluded, those after the first (none of a row of at most
/// one column).
pub open spec fn kept<T>(row: Seq<T>, exclude_nearest: bool) -> Seq<T> {
    if !exclude_nearest {
        row
    } else if row.len() <= 1 {
        Seq::empty()
    } else {
        row.subrange(1, row.len() as int)
    }
}

/// A row of a search result: the neighbours found for one query, padded to
/// `search_k` columns with `fill`, then trimmed of the nearest when asked.
pub open spec fn finished_row<T>(found: Seq<T>, search_k: nat, fill: T, exclude_nearest: bool) -> Seq<T> {
    kept(padded(found, search_k, fill), exclude_nearest)
}

/// The row number that pads the neighbours found for one query: the
/// farthest one found, or row 0 when none was.
pub open spec fn index_fill(found: Seq<i64>) -> i64 {
    if found.len() == 0 {
        0
    } else {
        found.last()
    }
}

/// `row` padded to `width` columns with `fill`.
pub fn pad_row<T: Copy>(row: &Vec<T>, width: usize, fill: T) -> (r: Vec<T>)
    ensures
        r@ == padded(row@, width as nat, fill),
{
    let mut out: Vec<T> = Vec::with_capacity(if row.len() < width { width } else { row.len() });
    let mut j: usize = 0;
    while j < row.len()
        invariant
            j <= row@.len(),
            out@ == row@.subrange(0, j as int),
        decreases row@.len() - j,
    {
        out.push(row[j]);
        j = j + 1;
    }
    let mut pad: usize = row.len();
    while pad < width
        invariant
            row@.len() <= pad,
            pad <= width || pad == row@.len(),
            out@ == row@ + Seq::new((pad - row@.len()) as nat, |i: int| fill),
        decreases width - pad,
    {
        out.push(fill);
        pad = pad + 1;
        assert(out@ =~= row@ + Seq::new((pad - row@.len()) as nat, |i: int| fill));
    }
    assert(out@ =~= padded(row@, width as nat, fill));
    out
}

/// The columns of `row` that a search keeps.
pub fn kept_row<T: Copy>(row: &Vec<T>, exclude_nearest: bool) -> (r: Vec<T>)
    ensures
        r@ == kept(row@, exclude_nearest),
{
    let (first, width) = kept_columns(row.len(), exclude_nearest);
    let mut out: Vec<T> = Vec::with_capacity(width);
    let mut j: usize = 0;
    while j < width
        invariant
            first + width <= row.len(),
            j <= width,
            out@ == row@.subrange(first as int, first + j),
        decreases width - j,
    {
        out.push(row[first + j]);
        j = j + 1;
        assert(out@ =~= row@.subrange(first as int, first + j));
    }
    assert(out@ =~= kept(row@, exclude_nearest));
    out
}

/// The distance columns of a search result: for each query, the squared
/// distances found, padded to `search_k` with `infinity` and trimmed of the
/// nearest when asked.
pub fn finish_distances<T: Copy>(found: &Vec<Vec<T>>, search_k: usize, infinity: T, exclude_nearest: bool) -> (r:
    Vec<Vec<T>>)
    ensures
        r@.len() == found@.len(),
        forall|q: int|
            0 <= q < found@.len() ==> #[trigger] r@[q]@ == finished_row(
                found@[q]@,
                search_k as nat,
                infinity,
                exclude_nearest,
            ),
{
    let mut out: Vec<Vec<T>> = Vec::with_capacity(found.len());
    let mut q: usize = 0;
    while q < found.len()
        invariant
            q <= found@.len(),
            out@.len() == q,
            forall|p: int|
                0 <= p < q ==> #[trigger] out@[p]@ == finished_row(found@[p]@, search_k as nat, infinity, exclude_nearest),
        decreases found@.len() - q,
    {
        let wide = pad_row(&found[q], search_k, infinity);
        out.push(kept_row(&wide, exclude_nearest));
        q = q + 1;
    }
    out
}

/// The row columns of a search result: for each query, the rows found,
/// padded to `search_k` with the farthest of them (row 0 when none was found)
/// and trimmed of the nearest when asked.
pub fn finish_indices(found: &Vec<Vec<i64>>, search_k: usize, exclude_nearest: bool) -> (r: Vec<Vec<i64>>)
    ensures
        r@.len() == found@.len(),
        forall|q: int|
            0 <= q < found@.len() ==> #[trigger] r@[q]@ == finished_row(
                found@[q]@,
                search_k as nat,
                index_fill(found@[q]@),
                exclude_nearest,
            ),
{
    let mut out: Vec<Vec<i64>> = Vec::with_capacity(found.len());
    let mut q: usize = 0;
    while q < found.len()
        invariant
            q <= found@.len(),
            out@.len() == q,
            forall|p: int|
                0 <= p < q ==> #[trigger] out@[p]@ == finished_row(
                    found@[p]@,
                    search_k as nat,
                    index_fill(found@[p]@),
                    exclude_nearest,
                ),
        decreases found@.len() - q,
    {
        let row = &found[q];
        let fill: i64 = if row.len() == 0 {
            0
        } else {
            row[row.len() - 1]
        };
        let wide = pad_row(row, search_k, fill);
        out.push(kept_row(&wide, exclude_nearest));
        q = q + 1;
    }
    out
}

/// A search of `search_k` neighbours in which each query found at most
/// `search_k` of them gives rows of `search_k` columns, or one fewer when the
/// nearest is excluded, and excluding it gives the plain result without its
/// first column.
pub proof fn lemma_excluding_drops_first_column<T>(found: Seq<T>, search_k: nat, fill: T)
    requires
        search_k >= 1,
        found.len() <= search_k,
    ensures
        finished_row(found, search_k, fill, false).len() == search_k,
        finished_row(found, search_k, fill, true).len() == search_k - 1,
        finished_row(found, search_k, fill, true) == finished_row(found, search_k, fill, false).subrange(
            1,
            search_k as int,
        ),
{
    let wide = padded(found, search_k, fill);
    assert(wide.len() == search_k);
    if search_k <= 1 {
        assert(finished_row(found, search_k, fill, true) =~= wide.subrange(1, search_k as int));
    }
}

/// The law of a whole result table: with `found` holding at most `search_k`
/// neighbours per query, the distance and row tables excluding the nearest
/// are, query by query, the plain tables without their first column, with
/// `search_k - 1` columns against `search_k`.
pub proof fn lemma_search_tables_exclude_nearest<T>(
    distances: Seq<Seq<T>>,
    rows: Seq<Seq<i64>>,
    search_k: nat,
    infinity: T,
)
    requires
        search_k >= 1,
        forall|q: int| 0 <= q < distances.len() ==> (#[trigger] distances[q]).len() <= search_k,
        forall|q: int| 0 <= q < rows.len() ==> (#[trigger] rows[q]).len() <= search_k,
    ensures
        forall|q: int|
            0 <= q < distances.len() ==> {
                &&& finished_row(#[trigger] distances[q], search_k, infinity, false).len() == search_k
                &&& finished_row(distances[q], search_k, infinity, true) == finished_row(
                    distances[q],
                    search_k,
                    infinity,
                    false,
                ).subrange(1, search_k as int)
            },
        forall|q: int|
            0 <= q < rows.len() ==> {
                &&& finished_row(#[trigger] rows[q], search_k, index_fill(rows[q]), false).len() == search_k
                &&& finished_row(rows[q], search_k, index_fill(rows[q]), true) == finished_row(
                    rows[q],
                    search_k,
                    index_fill(rows[q]),
                    false,
                ).subrange(1, search_k as int)
            },
{
    assert forall|q: int| 0 <= q < distances.len() implies {
        &&& finished_row(#[trigger] distances[q], search_k, infinity, false).len() == search_k
        &&& finished_row(distances[q], search_k, infinity, true) == finished_row(
            distances[q],
            search_k,
            infinity,
            false,
        ).subrange(1, search_k as int)
    } by {
        lemma_excluding_drops_first_column(distances[q], search_k, infinity);
    }
    assert forall|q: int| 0 <= q < rows.len() implies {
        &&& finished_row(#[trigger] rows[q], search_k, index_fill(rows[q]), false).len() == search_k
        &&& finished_row(rows[q], search_k, index_fill(rows[q]), true) == finished_row(
            rows[q],
            search_k,
            index_fill(rows[q]),
            false,
        ).subrange(1, search_k as int)
    } by {
        lemma_excluding_drops_first_column(rows[q], search_k, index_fill(rows[q]));
    }
}

} // verus!
