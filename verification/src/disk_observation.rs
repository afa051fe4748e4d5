//! Rules shared by the disk observation stores: row and dimension limits, and
//! the writer and reader for the flat `metadata.json` that a work directory
//! carries, with the proof that what is written reads back.

use vstd::prelude::*;

use crate::index::{is_disk_index_driver, IndexDriver};

use crate::text::{
    ascii_digit, chars_of, decimal, digit_run, digits_value, find, is_white_space, joined, lemma_decimal_reads_back,
    lemma_digit_run_block, lemma_joined_at, lemma_occurs_char, lemma_piece_start_step, lemma_search_first,
    message_with, occurs_at, piece_start, push_decimal, same_chars, search, white_run, white_space,
};

verus! {

/// Errors reported by the observation stores.
#[derive(Debug, Clone, PartialEq, Eq)]
pub enum ENNError {
    InvalidParameter(String),
    InvalidShape { expected: Vec<usize>, got: Vec<usize> },
}

/// The dimensions of a shape, separated by `", "`.
pub open spec fn shape_items(dims: Seq<usize>) -> Seq<char>
    decreases dims.len(),
{
    if dims.len() == 0 {
        Seq::empty()
    } else if dims.len() == 1 {
        decimal(dims[0] as nat)
    } else {
        shape_items(dims.drop_last()) + ", "@ + decimal(dims.last() as nat)
    }
}

/// A shape written as `[a, b, ...]`.
pub open spec fn shape_list(dims: Seq<usize>) -> Seq<char> {
    "["@ + shape_items(dims) + "]"@
}

pub(crate) fn push_shape_list(out: &mut String, dims: &Vec<usize>)
    ensures
        final(out)@ == old(out)@ + shape_list(dims@),
{
    let ghost start = out@;
    out.append("[");
    let mut i: usize = 0;
    while i < dims.len()
        invariant
            i <= dims@.len(),
            out@ == start + "["@ + shape_items(dims@.subrange(0, i as int)),
        decreases dims@.len() - i,
    {
        let ghost before = out@;
        if i > 0 {
            out.append(", ");
        }
        push_decimal(out, dims[i] as u64);
        proof {
            let sub = dims@.subrange(0, i + 1);
            assert(sub.drop_last() =~= dims@.subrange(0, i as int));
            assert(sub.last() == dims@[i as int]);
            if i == 0 {
                assert(dims@.subrange(0, 0) =~= Seq::<usize>::empty());
                assert(out@ =~= start + "["@ + shape_items(sub));
            } else {
                assert(out@ =~= start + "["@ + shape_items(sub));
            }
        }
        i = i + 1;
    }
    out.append("]");
    proof {
        assert(dims@.subrange(0, dims@.len() as int) =~= dims@);
        assert(out@ =~= start + shape_list(dims@));
    }
}

impl ENNError {
    /// The message the error carries.
    pub open spec fn message(&self) -> Seq<char> {
        match self {
            ENNError::InvalidParameter(m) => m@,
            ENNError::InvalidShape { expected, got } => "Invalid shape: expected "@ + shape_list(expected@)
                + ", got "@ + shape_list(got@),
        }
    }

    /// The message the error carries, as text.
    pub fn to_string(&self) -> (r: String)
        ensures
            r@ == self.message(),
    {
        match self {
            ENNError::InvalidParameter(m) => m.clone(),
            ENNError::InvalidShape { expected, got } => {
                let mut m = String::from_str("Invalid shape: expected ");
                push_shape_list(&mut m, expected);
                m.append(", got ");
                push_shape_list(&mut m, got);
                proof {
                    reveal_strlit("Invalid shape: expected ");
                    reveal_strlit(", got ");
                    assert(m@ =~= self.message());
                }
                m
            },
        }
    }
}

pub const FORMAT_VERSION: u32 = 1;

pub const MAX_DIM: usize = 100_000;

pub const MAX_STRIDE: usize = 8_388_608;

/// Row counts must stay below `u32::MAX`.
pub fn check_rows(new_n: usize) -> (r: Result<(), ENNError>)
    ensures
        match r {
            Ok(()) => new_n < u32::MAX,
            Err(e) => new_n >= u32::MAX && e.message() == "disk ENN row count exceeds u32::MAX"@,
        },
{
    if new_n >= 4_294_967_295 {
        return Err(
            ENNError::InvalidParameter(String::from_str("disk ENN row count exceeds u32::MAX")),
        );
    }
    Ok(())
}

/// Dimension and record-stride limits of a disk store.
pub fn check_dims(num_dim: usize, record_stride: usize) -> (r: Result<(), ENNError>)
    ensures
        match r {
            Ok(()) => num_dim <= MAX_DIM && record_stride <= MAX_STRIDE,
            Err(e) => if num_dim > MAX_DIM {
                e.message() == "num_dim "@ + decimal(num_dim as nat) + " exceeds maximum "@
                    + decimal(MAX_DIM as nat)
            } else {
                record_stride > MAX_STRIDE && e.message() == "record_stride "@ + decimal(
                    record_stride as nat,
                ) + " exceeds maximum "@ + decimal(MAX_STRIDE as nat)
            },
        },
{
    if num_dim > MAX_DIM {
        let mut m = message_with("num_dim ", num_dim as u64);
        m.append(" exceeds maximum ");
        push_decimal(&mut m, MAX_DIM as u64);
        return Err(ENNError::InvalidParameter(m));
    }
    if record_stride > MAX_STRIDE {
        let mut m = message_with("record_stride ", record_stride as u64);
        m.append(" exceeds maximum ");
        push_decimal(&mut m, MAX_STRIDE as u64);
        return Err(ENNError::InvalidParameter(m));
    }
    Ok(())
}

/// The key that introduces a number field: `"field":`.
pub open spec fn number_key(field: Seq<char>) -> Seq<char> {
    seq!['"'] + field + seq!['"', ':']
}

/// The key that introduces a string field: `"field":"`.
pub open spec fn string_key(field: Seq<char>) -> Seq<char> {
    seq!['"'] + field + seq!['"', ':', '"']
}

/// The number recorded for `field` in `text`: after the first occurrence of
/// its key, skip white space, then read the run of ASCII digits; there must
/// be at least one digit and the value must fit in a `usize`.
pub open spec fn metadata_number(text: Seq<char>, field: Seq<char>) -> Option<usize> {
    match search(text, number_key(field), 0) {
        None => None,
        Some(i) => {
            let start = i + number_key(field).len();
            let from = start + white_run(text, start);
            let n = digit_run(text, from);
            let v = digits_value(text.subrange(from, from + n));
            if n == 0 || v > usize::MAX {
                None
            } else {
                Some(v as usize)
            }
        },
    }
}

/// The first `"` at or after `i` in `t`.
pub open spec fn next_quote(t: Seq<char>, i: int) -> Option<int>
    decreases t.len() - i,
{
    if i < 0 || i >= t.len() {
        None
    } else if t[i] == '"' {
        Some(i)
    } else {
        next_quote(t, i + 1)
    }
}

/// The string recorded for `field` in `text`: the characters between the
/// first occurrence of its key and the next `"`, which must exist.
pub open spec fn metadata_string(text: Seq<char>, field: Seq<char>) -> Option<Seq<char>> {
    match search(text, string_key(field), 0) {
        None => None,
        Some(i) => {
            let start = i + string_key(field).len();
            match next_quote(text, start) {
                None => None,
                Some(end) => Some(text.subrange(start, end)),
            }
        },
    }
}

fn key_chars(field: &str, close: bool) -> (r: Vec<char>)
    ensures
        r@ == if close {
            string_key(field@)
        } else {
            number_key(field@)
        },
{
    let mut key: Vec<char> = Vec::new();
    key.push('"');
    let f = chars_of(field);
    let mut i: usize = 0;
    while i < f.len()
        invariant
            i <= f@.len(),
            key@ == seq!['"'] + f@.subrange(0, i as int),
        decreases f@.len() - i,
    {
        key.push(f[i]);
        i = i + 1;
    }
    key.push('"');
    key.push(':');
    if close {
        key.push('"');
    }
    assert(f@.subrange(0, f@.len() as int) == f@);
    assert(key@ =~= if close {
        string_key(field@)
    } else {
        number_key(field@)
    });
    key
}

/// The number recorded for `field` in the metadata `text`.
pub fn parse_number(text: &str, field: &str) -> (r: Option<usize>)
    ensures
        r == metadata_number(text@, field@),
{
    let t = chars_of(text);
    let key = key_chars(field, false);
    let i = match find(&t, &key) {
        Some(i) => i,
        None => return None,
    };
    let n = t.len();
    proof {
        assert(occurs_at(t@, key@, i as int));
        assert(i + key@.len() <= n);
    }
    let start = i + key.len();
    let mut from = start;
    while from < t.len() && is_white_space(t[from])
        invariant
            start <= from <= t@.len(),
            from + white_run(t@, from as int) == start + white_run(t@, start as int),
        decreases t@.len() - from,
    {
        from = from + 1;
    }
    let mut j = from;
    let mut value: usize = 0;
    let mut overflow = false;
    while j < t.len() && '0' <= t[j] && t[j] <= '9'
        invariant
            from <= j <= t@.len(),
            j + digit_run(t@, j as int) == from + digit_run(t@, from as int),
            !overflow ==> value == digits_value(t@.subrange(from as int, j as int)),
            overflow ==> digits_value(t@.subrange(from as int, j as int)) > usize::MAX,
        decreases t@.len() - j,
    {
        let d = (t[j] as u32 - 48) as usize;
        proof {
            assert(t@.subrange(from as int, j + 1).drop_last() =~= t@.subrange(from as int, j as int));
            assert(t@.subrange(from as int, j + 1).last() == t@[j as int]);
        }
        if !overflow {
            if value > (usize::MAX - d) / 10 {
                overflow = true;
            } else {
                value = value * 10 + d;
            }
        }
        j = j + 1;
    }
    proof {
        assert(white_run(t@, from as int) == 0);
        assert(digit_run(t@, j as int) == 0);
        assert(from == start + white_run(t@, start as int));
        assert(j == from + digit_run(t@, from as int));
        assert(search(t@, number_key(field@), 0) == Some(i as int));
    }
    if j == from || overflow {
        None
    } else {
        Some(value)
    }
}

/// The string recorded for `field` in the metadata `text`.
pub fn parse_string(text: &str, field: &str) -> (r: Option<String>)
    ensures
        match metadata_string(text@, field@) {
            None => r is None,
            Some(s) => r matches Some(v) && v@ == s,
        },
{
    let t = chars_of(text);
    let key = key_chars(field, true);
    let i = match find(&t, &key) {
        Some(i) => i,
        None => return None,
    };
    let n = t.len();
    proof {
        assert(occurs_at(t@, key@, i as int));
        assert(i + key@.len() <= n);
    }
    let start = i + key.len();
    let mut end = start;
    while end < t.len() && t[end] != '"'
        invariant
            start <= end <= t@.len(),
            next_quote(t@, start as int) == next_quote(t@, end as int),
        decreases t@.len() - end,
    {
        end = end + 1;
    }
    if end == t.len() {
        return None;
    }
    Some(String::from_str(text.substring_char(start, end)))
}

/// The `index_backend` recorded in a work directory's metadata (when the
/// metadata could be read) must be the expected one.
pub fn check_backend(metadata: Option<&str>, expected: &str) -> (r: Result<(), ENNError>)
    ensures
        match metadata {
            Some(text) => match metadata_string(text@, "index_backend"@) {
                Some(found) => if found == expected@ {
                    r is Ok
                } else {
                    r matches Err(e) && e.message() == "work_dir index_backend is "@ + found
                        + ", expected "@ + expected@
                },
                None => r is Ok,
            },
            None => r is Ok,
        },
{
    let text = match metadata {
        Some(text) => text,
        None => return Ok(()),
    };
    let backend = match parse_string(text, "index_backend") {
        Some(backend) => backend,
        None => return Ok(()),
    };
    let found = chars_of(backend.as_str());
    let wanted = chars_of(expected);
    if !same_chars(&found, &wanted) {
        let mut m = String::from_str("work_dir index_backend is ");
        m.append(backend.as_str());
        m.append(", expected ");
        m.append(expected);
        return Err(ENNError::InvalidParameter(m));
    }
    Ok(())
}

/// Every requested row index lies below the `n` stored rows; otherwise the
/// first one that does not is reported.
pub fn check_indices(n: usize, indices: &[usize]) -> (r: Result<(), ENNError>)
    ensures
        match r {
            Ok(()) => forall|k: int| 0 <= k < indices@.len() ==> #[trigger] indices@[k] < n,
            Err(e) => exists|k: int|
                0 <= k < indices@.len() && #[trigger] indices@[k] >= n && (forall|j: int|
                    0 <= j < k ==> #[trigger] indices@[j] < n) && e.message() == "train_rows index "@ + decimal(
                    indices@[k] as nat,
                ) + " out of range [0, "@ + decimal(n as nat) + ")"@,
        },
{
    let mut k: usize = 0;
    while k < indices.len()
        invariant
            k <= indices@.len(),
            forall|j: int| 0 <= j < k ==> #[trigger] indices@[j] < n,
        decreases indices@.len() - k,
    {
        let i = indices[k];
        if i >= n {
            let mut m = String::from_str("train_rows index ");
            push_decimal(&mut m, i as u64);
            m.append(" out of range [0, ");
            push_decimal(&mut m, n as u64);
            m.append(")");
            proof {
                reveal_strlit("train_rows index ");
                reveal_strlit(" out of range [0, ");
                reveal_strlit(")");
                assert(m@ =~= "train_rows index "@ + decimal(i as nat) + " out of range [0, "@ + decimal(n as nat)
                    + ")"@);
                assert(indices@[k as int] >= n);
            }
            return Err(ENNError::InvalidParameter(m));
        }
        k = k + 1;
    }
    Ok(())
}

/// `true` or `false`.
pub open spec fn bool_text(b: bool) -> Seq<char> {
    if b {
        "true"@
    } else {
        "false"@
    }
}

/// The `metadata.json` text of a work directory.
pub open spec fn metadata_text(
    num_obs: usize,
    num_dim: usize,
    num_metrics: usize,
    scale_x: bool,
    indexed_rows: usize,
    index_backend: Seq<char>,
) -> Seq<char> {
    "{\"format_version\":"@ + decimal(FORMAT_VERSION as nat) + ",\"num_obs\":"@ + decimal(num_obs as nat)
        + ",\"num_dim\":"@ + decimal(num_dim as nat) + ",\"num_metrics\":"@ + decimal(num_metrics as nat)
        + ",\"scale_x\":"@ + bool_text(scale_x) + ",\"index_backend\":\""@ + index_backend
        + "\",\"indexed_rows\":"@ + decimal(indexed_rows as nat) + "}"@
}

/// Composes the `metadata.json` text that records a work directory's counts
/// and index backend.
pub fn metadata_json(
    num_obs: usize,
    num_dim: usize,
    num_metrics: usize,
    scale_x: bool,
    indexed_rows: usize,
    index_backend: &str,
) -> (r: String)
    ensures
        r@ == metadata_text(num_obs, num_dim, num_metrics, scale_x, indexed_rows, index_backend@),
{
    let mut m = String::from_str("{\"format_version\":");
    push_decimal(&mut m, FORMAT_VERSION as u64);
    m.append(",\"num_obs\":");
    push_decimal(&mut m, num_obs as u64);
    m.append(",\"num_dim\":");
    push_decimal(&mut m, num_dim as u64);
    m.append(",\"num_metrics\":");
    push_decimal(&mut m, num_metrics as u64);
    m.append(",\"scale_x\":");
    if scale_x {
        m.append("true");
    } else {
        m.append("false");
    }
    m.append(",\"index_backend\":\"");
    m.append(index_backend);
    m.append("\",\"indexed_rows\":");
    push_decimal(&mut m, indexed_rows as u64);
    m.append("}");
    proof {
        assert(m@ =~= metadata_text(num_obs, num_dim, num_metrics, scale_x, indexed_rows, index_backend@));
    }
    m
}

/// A disk observation backend needs the B+ANN disk driver.
pub fn check_disk_driver(driver: IndexDriver) -> (r: Result<(), ENNError>)
    ensures
        match r {
            Ok(()) => driver == IndexDriver::BpAnnDisk,
            Err(e) => driver != IndexDriver::BpAnnDisk && e.message()
                == "DiskBpannEnnBackend requires IndexDriver::BpAnnDisk"@,
        },
{
    if !is_disk_index_driver(driver) {
        return Err(
            ENNError::InvalidParameter(String::from_str("DiskBpannEnnBackend requires IndexDriver::BpAnnDisk")),
        );
    }
    Ok(())
}

/// Rebuild thresholds of a deferred disk index: both at least one, and the
/// hard one not below the soft one.
pub fn check_thresholds(soft_threshold: usize, hard_threshold: usize) -> (r: Result<(), ENNError>)
    ensures
        match r {
            Ok(()) => 1 <= soft_threshold <= hard_threshold,
            Err(e) => if soft_threshold == 0 {
                e.message() == "soft_threshold must be >= 1"@
            } else if hard_threshold == 0 {
                e.message() == "hard_threshold must be >= 1"@
            } else {
                hard_threshold < soft_threshold && e.message() == "hard_threshold must be >= soft_threshold"@
            },
        },
{
    if soft_threshold == 0 {
        return Err(ENNError::InvalidParameter(String::from_str("soft_threshold must be >= 1")));
    }
    if hard_threshold == 0 {
        return Err(ENNError::InvalidParameter(String::from_str("hard_threshold must be >= 1")));
    }
    if hard_threshold < soft_threshold {
        return Err(ENNError::InvalidParameter(String::from_str("hard_threshold must be >= soft_threshold")));
    }
    Ok(())
}

/// The thresholds of a backend opened with only a soft threshold: the tuned
/// hard threshold, raised to the soft one when it is lower.
pub fn thresholds_for(soft_threshold: usize, tuned_hard: usize) -> (r: (usize, usize))
    ensures
        r.0 == soft_threshold,
        r.1 == if tuned_hard < soft_threshold {
            soft_threshold
        } else {
            tuned_hard
        },
{
    let hard = if tuned_hard < soft_threshold {
        soft_threshold
    } else {
        tuned_hard
    };
    (soft_threshold, hard)
}

/// The pieces of the `metadata.json` text: the fixed keys and punctuation
/// between the recorded values.
pub open spec fn metadata_pieces(
    num_obs: usize,
    num_dim: usize,
    num_metrics: usize,
    scale_x: bool,
    indexed_rows: usize,
    index_backend: Seq<char>,
) -> Seq<Seq<char>> {
    seq![
        "{\"format_version\":"@,
        decimal(FORMAT_VERSION as nat),
        ",\"num_obs\":"@,
        decimal(num_obs as nat),
        ",\"num_dim\":"@,
        decimal(num_dim as nat),
        ",\"num_metrics\":"@,
        decimal(num_metrics as nat),
        ",\"scale_x\":"@,
        bool_text(scale_x),
        ",\"index_backend\":\""@,
        index_backend,
        "\",\"indexed_rows\":"@,
        decimal(indexed_rows as nat),
        "}"@,
    ]
}

/// The metadata text is its pieces written one after another.
proof fn lemma_metadata_joined(
    num_obs: usize,
    num_dim: usize,
    num_metrics: usize,
    scale_x: bool,
    indexed_rows: usize,
    index_backend: Seq<char>,
)
    ensures
        metadata_text(num_obs, num_dim, num_metrics, scale_x, indexed_rows, index_backend) == joined(
            metadata_pieces(num_obs, num_dim, num_metrics, scale_x, indexed_rows, index_backend),
        ),
{
    let p = metadata_pieces(num_obs, num_dim, num_metrics, scale_x, indexed_rows, index_backend);
    reveal_with_fuel(joined, 16);
    assert(p.drop_last().drop_last().drop_last().drop_last().drop_last().drop_last().drop_last().drop_last().drop_last().drop_last().drop_last().drop_last().drop_last().drop_last().drop_last()
        =~= Seq::<Seq<char>>::empty());
    assert(metadata_text(num_obs, num_dim, num_metrics, scale_x, indexed_rows, index_backend) =~= joined(p));
}

/// Where each piece of the metadata text starts.
proof fn lemma_metadata_starts(p: Seq<Seq<char>>, n1: int, n2: int, n3: int, nb: int, ns: int, n4: int)
    requires
        p.len() == 15,
        p[0].len() == 18,
        p[1].len() == 1,
        p[2].len() == 11,
        p[3].len() == n1,
        p[4].len() == 11,
        p[5].len() == n2,
        p[6].len() == 15,
        p[7].len() == n3,
        p[8].len() == 11,
        p[9].len() == nb,
        p[10].len() == 18,
        p[11].len() == ns,
        p[12].len() == 17,
        p[13].len() == n4,
    ensures
        piece_start(p, 0) == 0,
        piece_start(p, 1) == 18,
        piece_start(p, 2) == 19,
        piece_start(p, 3) == 30,
        piece_start(p, 4) == 30 + n1,
        piece_start(p, 5) == 41 + n1,
        piece_start(p, 6) == 41 + n1 + n2,
        piece_start(p, 7) == 56 + n1 + n2,
        piece_start(p, 8) == 56 + n1 + n2 + n3,
        piece_start(p, 9) == 67 + n1 + n2 + n3,
        piece_start(p, 10) == 67 + n1 + n2 + n3 + nb,
        piece_start(p, 11) == 85 + n1 + n2 + n3 + nb,
        piece_start(p, 12) == 85 + n1 + n2 + n3 + nb + ns,
        piece_start(p, 13) == 102 + n1 + n2 + n3 + nb + ns,
        piece_start(p, 14) == 102 + n1 + n2 + n3 + nb + ns + n4,
{
    assert(p.take(0) =~= Seq::<Seq<char>>::empty());
    lemma_piece_start_step(p, 0);
    lemma_piece_start_step(p, 1);
    lemma_piece_start_step(p, 2);
    lemma_piece_start_step(p, 3);
    lemma_piece_start_step(p, 4);
    lemma_piece_start_step(p, 5);
    lemma_piece_start_step(p, 6);
    lemma_piece_start_step(p, 7);
    lemma_piece_start_step(p, 8);
    lemma_piece_start_step(p, 9);
    lemma_piece_start_step(p, 10);
    lemma_piece_start_step(p, 11);
    lemma_piece_start_step(p, 12);
    lemma_piece_start_step(p, 13);
}

/// What the metadata records for `num_obs` reads back as `num_obs`.
proof fn lemma_metadata_obs_round_trip(
    num_obs: usize,
    num_dim: usize,
    num_metrics: usize,
    scale_x: bool,
    indexed_rows: usize,
    index_backend: Seq<char>,
)
    ensures
        metadata_number(
            metadata_text(num_obs, num_dim, num_metrics, scale_x, indexed_rows, index_backend),
            "num_obs"@,
        ) == Some(num_obs),
{
    let t = metadata_text(num_obs, num_dim, num_metrics, scale_x, indexed_rows, index_backend);
    let p = metadata_pieces(num_obs, num_dim, num_metrics, scale_x, indexed_rows, index_backend);
    reveal_strlit("{\"format_version\":");
    reveal_strlit(",\"num_obs\":");
    reveal_strlit(",\"num_dim\":");
    reveal_strlit(",\"num_metrics\":");
    reveal_strlit(",\"scale_x\":");
    reveal_strlit(",\"index_backend\":\"");
    reveal_strlit("\",\"indexed_rows\":");
    reveal_strlit("num_obs");
    lemma_metadata_joined(num_obs, num_dim, num_metrics, scale_x, indexed_rows, index_backend);
    let d1 = decimal(num_obs as nat);
    lemma_decimal_reads_back(num_obs as nat);
    lemma_decimal_reads_back(num_dim as nat);
    assert(decimal(FORMAT_VERSION as nat) == seq!['1']);
    lemma_metadata_starts(
        p,
        d1.len() as int,
        decimal(num_dim as nat).len() as int,
        decimal(num_metrics as nat).len() as int,
        bool_text(scale_x).len() as int,
        index_backend.len() as int,
        decimal(indexed_rows as nat).len() as int,
    );
    let k = number_key("num_obs"@);
    assert(k.len() == 10);
    assert(occurs_at(t, k, 20)) by {
        assert forall|j: int| 0 <= j < 10 implies #[trigger] t.subrange(20, 30)[j] == k[j] by {
            lemma_joined_at(p, 2, 1 + j);
        }
        assert(t.subrange(20, 30) =~= k);
    }
    assert forall|i: int| 0 <= i < 20 implies !#[trigger] occurs_at(t, k, i) by {
        if occurs_at(t, k, i) {
            lemma_occurs_char(t, k, i, 0);
            lemma_occurs_char(t, k, i, 1);
            if i < 17 {
                lemma_joined_at(p, 0, i);
                lemma_joined_at(p, 0, i + 1);
            } else if i == 17 {
                lemma_joined_at(p, 0, 17);
            } else if i == 18 {
                lemma_joined_at(p, 1, 0);
            } else {
                lemma_joined_at(p, 2, 0);
            }
        }
    }
    lemma_search_first(t, k, 0, 20);
    let start = 30int;
    let n = d1.len() as int;
    assert forall|i: int| start <= i < start + n implies ascii_digit(#[trigger] t[i]) && t[i] == d1[i - start] by {
        lemma_joined_at(p, 3, i - start);
    }
    lemma_joined_at(p, 4, 0);
    assert(!ascii_digit(t[start + n]));
    lemma_digit_run_block(t, start, n);
    assert(!white_space(t[start])) by {
        assert(ascii_digit(t[start]));
    }
    assert(white_run(t, start) == 0);
    assert(t.subrange(start, start + n) =~= d1);
}

/// The first quote from `a` on is at `b` when none lies between.
proof fn lemma_next_quote_block(t: Seq<char>, a: int, b: int)
    requires
        0 <= a <= b < t.len(),
        t[b] == '"',
        forall|i: int| a <= i < b ==> #[trigger] t[i] != '"',
    ensures
        next_quote(t, a) == Some(b),
    decreases b - a,
{
    if a < b {
        lemma_next_quote_block(t, a + 1, b);
    }
}

/// A quote in the metadata text before the value of `index_backend` is one of
/// the fixed keys; none of them starts `"index_backend":"` or
/// `"indexed_rows":`, which both continue with `i` after the quote.
proof fn lemma_metadata_early_quotes(p: Seq<Seq<char>>, t: Seq<char>, i: int, o: Seq<int>)
    requires
        t == joined(p),
        p.len() == 15,
        o.len() == 15,
        forall|k: int| 0 <= k < 15 ==> #[trigger] o[k] == piece_start(p, k),
        p[0] == "{\"format_version\":"@,
        p[1] == seq!['1'],
        p[2] == ",\"num_obs\":"@,
        p[4] == ",\"num_dim\":"@,
        p[6] == ",\"num_metrics\":"@,
        p[8] == ",\"scale_x\":"@,
        p[10] == ",\"index_backend\":\""@,
        forall|j: int| 0 <= j < p[3].len() ==> ascii_digit(#[trigger] p[3][j]),
        forall|j: int| 0 <= j < p[5].len() ==> ascii_digit(#[trigger] p[5][j]),
        forall|j: int| 0 <= j < p[7].len() ==> ascii_digit(#[trigger] p[7][j]),
        p[9] == "true"@ || p[9] == "false"@,
        forall|k: int| 0 <= k < 14 ==> o[k + 1] == o[k] + (#[trigger] p[k]).len(),
        0 <= i <= o[10],
        i + 1 < t.len(),
        t[i] == '"',
    ensures
        t[i + 1] != 'i',
{
    reveal_strlit("{\"format_version\":");
    reveal_strlit(",\"num_obs\":");
    reveal_strlit(",\"num_dim\":");
    reveal_strlit(",\"num_metrics\":");
    reveal_strlit(",\"scale_x\":");
    reveal_strlit(",\"index_backend\":\"");
    reveal_strlit("true");
    reveal_strlit("false");
    let k = if i < o[1] {
        0int
    } else if i < o[2] {
        1
    } else if i < o[3] {
        2
    } else if i < o[4] {
        3
    } else if i < o[5] {
        4
    } else if i < o[6] {
        5
    } else if i < o[7] {
        6
    } else if i < o[8] {
        7
    } else if i < o[9] {
        8
    } else if i < o[10] {
        9
    } else {
        10
    };
    assert(o[0] == 0) by {
        assert(p.take(0) =~= Seq::<Seq<char>>::empty());
    }
    assert(o[k] <= i < o[k] + p[k].len());
    lemma_joined_at(p, k, i - o[k]);
    if i - o[k] + 1 < p[k].len() {
        lemma_joined_at(p, k, i - o[k] + 1);
    }
}

/// The starts of the metadata pieces, and the facts about the pieces that the
/// readers rely on.
proof fn lemma_metadata_layout(
    num_obs: usize,
    num_dim: usize,
    num_metrics: usize,
    scale_x: bool,
    indexed_rows: usize,
    index_backend: Seq<char>,
) -> (o: Seq<int>)
    ensures
        ({
            let p = metadata_pieces(num_obs, num_dim, num_metrics, scale_x, indexed_rows, index_backend);
            &&& metadata_text(num_obs, num_dim, num_metrics, scale_x, indexed_rows, index_backend) == joined(p)
            &&& o.len() == 15
            &&& forall|k: int| 0 <= k < 15 ==> #[trigger] o[k] == piece_start(p, k)
            &&& forall|k: int| 0 <= k < 14 ==> o[k + 1] == o[k] + (#[trigger] p[k]).len()
            &&& o[0] == 0
            &&& p[1] == seq!['1']
            &&& forall|j: int| 0 <= j < p[3].len() ==> ascii_digit(#[trigger] p[3][j])
            &&& forall|j: int| 0 <= j < p[5].len() ==> ascii_digit(#[trigger] p[5][j])
            &&& forall|j: int| 0 <= j < p[7].len() ==> ascii_digit(#[trigger] p[7][j])
            &&& forall|j: int| 0 <= j < p[13].len() ==> ascii_digit(#[trigger] p[13][j])
            &&& p[13].len() >= 1
            &&& digits_value(p[13]) == indexed_rows
            &&& p[9] == "true"@ || p[9] == "false"@
        }),
{
    let p = metadata_pieces(num_obs, num_dim, num_metrics, scale_x, indexed_rows, index_backend);
    reveal_strlit("{\"format_version\":");
    reveal_strlit(",\"num_obs\":");
    reveal_strlit(",\"num_dim\":");
    reveal_strlit(",\"num_metrics\":");
    reveal_strlit(",\"scale_x\":");
    reveal_strlit(",\"index_backend\":\"");
    reveal_strlit("\",\"indexed_rows\":");
    lemma_metadata_joined(num_obs, num_dim, num_metrics, scale_x, indexed_rows, index_backend);
    lemma_decimal_reads_back(num_obs as nat);
    lemma_decimal_reads_back(num_dim as nat);
    lemma_decimal_reads_back(num_metrics as nat);
    lemma_decimal_reads_back(indexed_rows as nat);
    assert(decimal(FORMAT_VERSION as nat) == seq!['1']);
    assert(p.take(0) =~= Seq::<Seq<char>>::empty());
    let o = Seq::new(15, |k: int| piece_start(p, k));
    assert forall|k: int| 0 <= k < 14 implies o[k + 1] == o[k] + (#[trigger] p[k]).len() by {
        lemma_piece_start_step(p, k);
    }
    o
}

/// What the metadata records for `index_backend` reads back as the backend
/// name, when the name holds no quote.
proof fn lemma_metadata_backend_round_trip(
    num_obs: usize,
    num_dim: usize,
    num_metrics: usize,
    scale_x: bool,
    indexed_rows: usize,
    index_backend: Seq<char>,
)
    requires
        !index_backend.contains('"'),
    ensures
        metadata_string(
            metadata_text(num_obs, num_dim, num_metrics, scale_x, indexed_rows, index_backend),
            "index_backend"@,
        ) == Some(index_backend),
{
    let t = metadata_text(num_obs, num_dim, num_metrics, scale_x, indexed_rows, index_backend);
    let p = metadata_pieces(num_obs, num_dim, num_metrics, scale_x, indexed_rows, index_backend);
    let o = lemma_metadata_layout(num_obs, num_dim, num_metrics, scale_x, indexed_rows, index_backend);
    reveal_strlit(",\"index_backend\":\"");
    reveal_strlit("\",\"indexed_rows\":");
    reveal_strlit("index_backend");
    let k = string_key("index_backend"@);
    assert(k.len() == 17);
    let at = o[10] + 1;
    assert(occurs_at(t, k, at)) by {
        assert forall|j: int| 0 <= j < 17 implies #[trigger] t.subrange(at, at + 17)[j] == k[j] by {
            lemma_joined_at(p, 10, 1 + j);
        }
        assert(t.subrange(at, at + 17) =~= k);
    }
    assert forall|i: int| 0 <= i < at implies !#[trigger] occurs_at(t, k, i) by {
        if occurs_at(t, k, i) {
            lemma_occurs_char(t, k, i, 0);
            lemma_occurs_char(t, k, i, 1);
            lemma_metadata_early_quotes(p, t, i, o);
        }
    }
    lemma_search_first(t, k, 0, at);
    let start = at + 17;
    assert(start == o[11]);
    let ns = index_backend.len() as int;
    assert forall|i: int| start <= i < start + ns implies #[trigger] t[i] != '"' && t[i] == index_backend[i - start] by {
        lemma_joined_at(p, 11, i - start);
        if t[i] == '"' {
            assert(index_backend.contains(index_backend[i - start]));
        }
    }
    lemma_joined_at(p, 12, 0);
    lemma_next_quote_block(t, start, start + ns);
    assert(t.subrange(start, start + ns) =~= index_backend);
}

/// What the metadata records for `indexed_rows` reads back as the row count,
/// when the backend name holds no quote.
proof fn lemma_metadata_rows_round_trip(
    num_obs: usize,
    num_dim: usize,
    num_metrics: usize,
    scale_x: bool,
    indexed_rows: usize,
    index_backend: Seq<char>,
)
    requires
        !index_backend.contains('"'),
    ensures
        metadata_number(
            metadata_text(num_obs, num_dim, num_metrics, scale_x, indexed_rows, index_backend),
            "indexed_rows"@,
        ) == Some(indexed_rows),
{
    let t = metadata_text(num_obs, num_dim, num_metrics, scale_x, indexed_rows, index_backend);
    let p = metadata_pieces(num_obs, num_dim, num_metrics, scale_x, indexed_rows, index_backend);
    let o = lemma_metadata_layout(num_obs, num_dim, num_metrics, scale_x, indexed_rows, index_backend);
    reveal_strlit(",\"index_backend\":\"");
    reveal_strlit("\",\"indexed_rows\":");
    reveal_strlit("indexed_rows");
    reveal_strlit("}");
    let k = number_key("indexed_rows"@);
    assert(k.len() == 15);
    let at = o[12] + 2;
    assert(occurs_at(t, k, at)) by {
        assert forall|j: int| 0 <= j < 15 implies #[trigger] t.subrange(at, at + 15)[j] == k[j] by {
            lemma_joined_at(p, 12, 2 + j);
        }
        assert(t.subrange(at, at + 15) =~= k);
    }
    let ns = index_backend.len() as int;
    assert forall|i: int| 0 <= i < at implies !#[trigger] occurs_at(t, k, i) by {
        if occurs_at(t, k, i) {
            lemma_occurs_char(t, k, i, 0);
            lemma_occurs_char(t, k, i, 1);
            if i <= o[10] {
                lemma_metadata_early_quotes(p, t, i, o);
            } else if i < o[11] {
                lemma_joined_at(p, 10, i - o[10]);
                if i - o[10] == 1 {
                    lemma_occurs_char(t, k, i, 6);
                    lemma_joined_at(p, 10, 7);
                } else if i - o[10] < 17 {
                    lemma_joined_at(p, 10, i - o[10] + 1);
                } else if ns < 12 {
                    lemma_occurs_char(t, k, i, ns + 1);
                    lemma_joined_at(p, 12, 0);
                } else if ns == 12 {
                    lemma_occurs_char(t, k, i, 14);
                    lemma_joined_at(p, 12, 1);
                } else {
                    lemma_occurs_char(t, k, i, 13);
                    lemma_joined_at(p, 11, 12);
                    assert(index_backend.contains(index_backend[12]));
                }
            } else if i < o[12] {
                lemma_joined_at(p, 11, i - o[11]);
                assert(index_backend.contains(index_backend[i - o[11]]));
            } else {
                lemma_joined_at(p, 12, i - o[12]);
                lemma_joined_at(p, 12, i - o[12] + 1);
            }
        }
    }
    lemma_search_first(t, k, 0, at);
    let start = at + 15;
    assert(start == o[13]);
    let d = p[13];
    let n = d.len() as int;
    assert forall|i: int| start <= i < start + n implies ascii_digit(#[trigger] t[i]) && t[i] == d[i - start] by {
        lemma_joined_at(p, 13, i - start);
    }
    lemma_joined_at(p, 14, 0);
    assert(!ascii_digit(t[start + n]));
    lemma_digit_run_block(t, start, n);
    assert(!white_space(t[start])) by {
        assert(ascii_digit(t[start]));
    }
    assert(white_run(t, start) == 0);
    assert(t.subrange(start, start + n) =~= d);
}

/// What a work directory's metadata records is what the loaders read back:
/// the observation count, the index backend name and the indexed row count,
/// for every backend name that holds no quote.
pub proof fn lemma_metadata_round_trip(
    num_obs: usize,
    num_dim: usize,
    num_metrics: usize,
    scale_x: bool,
    indexed_rows: usize,
    index_backend: Seq<char>,
)
    requires
        !index_backend.contains('"'),
    ensures
        ({
            let t = metadata_text(num_obs, num_dim, num_metrics, scale_x, indexed_rows, index_backend);
            &&& metadata_number(t, "num_obs"@) == Some(num_obs)
            &&& metadata_string(t, "index_backend"@) == Some(index_backend)
            &&& metadata_number(t, "indexed_rows"@) == Some(indexed_rows)
        }),
{
    lemma_metadata_obs_round_trip(num_obs, num_dim, num_metrics, scale_x, indexed_rows, index_backend);
    lemma_metadata_backend_round_trip(num_obs, num_dim, num_metrics, scale_x, indexed_rows, index_backend);
    lemma_metadata_rows_round_trip(num_obs, num_dim, num_metrics, scale_x, indexed_rows, index_backend);
}

} // verus!
