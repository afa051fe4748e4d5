//! The package of packed quantized weights that resident evaluators load: the
//! checks on its linear descriptors against the weight, scale and bias
//! arenas, the lookup of a linear by name and the layout of the parameters a
//! trial perturbs.
//!
//! Single-precision arena values are held by their IEEE-754 bit patterns.

use vstd::prelude::*;

use crate::forward_program::{ceil_div, linear_error, packed_size, KdaPackedLinear};
use crate::text::{chars_of, decimal, push_decimal};

verus! {

/// The `Debug` rendering of a string: the text between double quotes, with
/// quotes, backslashes and characters that do not print escaped.
pub uninterp spec fn debug_quoted(s: Seq<char>) -> Seq<char>;

/// `format!("{name:?}")`: the `Debug` rendering of `name`. Nothing is stated
/// of it beyond its being a function of the text.
#[verifier::external_body]
fn quoted(name: &str) -> (r: String)
    ensures
        r@ == debug_quoted(name@),
{
    format!("{name:?}")
}

/// Scale and bias groups of one output row of `l`.
pub open spec fn row_groups(l: KdaPackedLinear) -> int {
    ceil_div(l.input_width as int, l.group_size as int)
}

/// Scale and bias groups of all of `l`.
pub open spec fn arena_groups(l: KdaPackedLinear) -> int {
    row_groups(l) * l.output_width
}

/// The arithmetic of the arena checks on a valid descriptor `l` stays within
/// `usize`, as far as the checks get against arenas of these lengths.
pub open spec fn entry_fits(l: KdaPackedLinear, packed_len: int, scales_len: int) -> bool {
    &&& l.input_width * l.bits <= usize::MAX
    &&& packed_size(l) <= usize::MAX
    &&& l.byte_offset + packed_size(l) <= usize::MAX
    &&& l.byte_offset + packed_size(l) <= packed_len ==> {
        &&& arena_groups(l) <= usize::MAX
        &&& l.scale_offset + arena_groups(l) <= usize::MAX
        &&& l.scale_offset + arena_groups(l) <= scales_len ==> l.bias_offset + arena_groups(l) <= usize::MAX
    }
}

/// The names of the entries.
pub open spec fn names_of(entries: Seq<(String, KdaPackedLinear)>) -> Seq<Seq<char>> {
    entries.map_values(|e: (String, KdaPackedLinear)| e.0@)
}

/// Why the linear `l` named `name` cannot join a package whose arenas have
/// these lengths and whose earlier linears carry `names`, if it cannot.
pub open spec fn entry_error(
    name: Seq<char>,
    l: KdaPackedLinear,
    packed_len: int,
    scales_len: int,
    biases_len: int,
    names: Seq<Seq<char>>,
) -> Option<Seq<char>> {
    if linear_error(l) is Some {
        linear_error(l)
    } else if l.byte_offset + packed_size(l) > packed_len {
        Some("linear "@ + debug_quoted(name) + " exceeds weights arena"@)
    } else if l.scale_offset + arena_groups(l) > scales_len || l.bias_offset + arena_groups(l) > biases_len {
        Some("linear "@ + debug_quoted(name) + " exceeds scale or bias arena"@)
    } else if names.contains(name) {
        Some("duplicate linear name "@ + debug_quoted(name))
    } else {
        None
    }
}

/// Why the entries, taken in order, do not make a package over arenas of these
/// lengths: the error of the first entry that fails.
pub open spec fn entries_error(
    entries: Seq<(String, KdaPackedLinear)>,
    packed_len: int,
    scales_len: int,
    biases_len: int,
) -> Option<Seq<char>>
    decreases entries.len(),
{
    if entries.len() == 0 {
        None
    } else if entries_error(entries.drop_last(), packed_len, scales_len, biases_len) is Some {
        entries_error(entries.drop_last(), packed_len, scales_len, biases_len)
    } else {
        entry_error(
            entries.last().0@,
            entries.last().1,
            packed_len,
            scales_len,
            biases_len,
            names_of(entries.drop_last()),
        )
    }
}

/// Packed quantized weights, the bit patterns of their scale and bias arenas,
/// and the named linear descriptors over them.
pub struct PackedModel {
    pub packed: Vec<u8>,
    pub scales: Vec<u32>,
    pub biases: Vec<u32>,
    pub linears: Vec<(String, KdaPackedLinear)>,
}

impl PackedModel {
    /// No two linears share a name, and each is valid and lies inside the
    /// arenas.
    pub open spec fn wf(&self) -> bool {
        &&& self.packed@.len() <= usize::MAX
        &&& forall|i: int, j: int|
            0 <= i < j < self.linears@.len() ==> self.linears@[i].0@ != self.linears@[j].0@
        &&& forall|i: int|
            0 <= i < self.linears@.len() ==> {
                &&& linear_error(#[trigger] self.linears@[i].1) is None
                &&& self.linears@[i].1.input_width * self.linears@[i].1.bits <= usize::MAX
                &&& self.linears@[i].1.byte_offset + packed_size(self.linears@[i].1) <= self.packed@.len()
            }
    }

    /// Checks the linear descriptors read from a package, in order, against
    /// the arenas and builds the package. Each must be valid, lie inside the
    /// weight arena and its scale and bias groups inside theirs, and carry a
    /// name no earlier one carries; the first that fails decides the error.
    pub fn from_parts(
        packed: Vec<u8>,
        scales: Vec<u32>,
        biases: Vec<u32>,
        entries: Vec<(String, KdaPackedLinear)>,
    ) -> (r: Result<PackedModel, String>)
        requires
            forall|i: int|
                0 <= i < entries@.len() && entries_error(
                    entries@.take(i),
                    packed@.len() as int,
                    scales@.len() as int,
                    biases@.len() as int,
                ) is None && linear_error(#[trigger] entries@[i].1) is None ==> entry_fits(
                    entries@[i].1,
                    packed@.len() as int,
                    scales@.len() as int,
                ),
        ensures
            match r {
                Ok(m) => {
                    &&& entries_error(entries@, packed@.len() as int, scales@.len() as int, biases@.len() as int) is None
                    &&& m.packed@ == packed@
                    &&& m.scales@ == scales@
                    &&& m.biases@ == biases@
                    &&& m.linears@ == entries@
                    &&& m.wf()
                },
                Err(e) => entries_error(entries@, packed@.len() as int, scales@.len() as int, biases@.len() as int)
                    == Some(e@),
            },
    {
        let ghost pl = packed@.len() as int;
        let ghost sl = scales@.len() as int;
        let ghost bl = biases@.len() as int;
        let mut linears: Vec<(String, KdaPackedLinear)> = Vec::new();
        let mut i: usize = 0;
        while i < entries.len()
            invariant
                i <= entries@.len(),
                pl == packed@.len(),
                sl == scales@.len(),
                bl == biases@.len(),
                linears@ == entries@.take(i as int),
                entries_error(entries@.take(i as int), pl, sl, bl) is None,
                forall|a: int, b: int| 0 <= a < b < linears@.len() ==> linears@[a].0@ != linears@[b].0@,
                forall|a: int|
                    0 <= a < linears@.len() ==> {
                        &&& linear_error(#[trigger] linears@[a].1) is None
                        &&& linears@[a].1.input_width * linears@[a].1.bits <= usize::MAX
                        &&& linears@[a].1.byte_offset + packed_size(linears@[a].1) <= pl
                    },
                forall|k: int|
                    0 <= k < entries@.len() && entries_error(entries@.take(k), pl, sl, bl) is None && linear_error(
                        #[trigger] entries@[k].1,
                    ) is None ==> entry_fits(entries@[k].1, pl, sl),
            decreases entries@.len() - i,
        {
            let ghost prefix = entries@.take(i as int);
            let ghost next = entries@.take(i + 1);
            proof {
                assert(next.drop_last() =~= prefix);
                assert(next.last() == entries@[i as int]);
            }
            match check_entry(&entries[i].0, entries[i].1, packed.len(), scales.len(), biases.len(), &linears) {
                Ok(()) => {},
                Err(e) => {
                    proof {
                        lemma_entries_error_prefix(entries@, i + 1, pl, sl, bl);
                    }
                    return Err(e);
                },
            }
            linears.push((entries[i].0.clone(), entries[i].1));
            i = i + 1;
            proof {
                assert(linears@ =~= entries@.take(i as int));
                let last = linears@.len() - 1;
                assert forall|a: int, b: int| 0 <= a < b < linears@.len() implies linears@[a].0@ != linears@[b].0@ by {
                    if b == last {
                        assert(names_of(prefix)[a] == linears@[a].0@);
                    }
                }
            }
        }
        assert(entries@.take(i as int) =~= entries@);
        assert(packed@.len() == packed.len());
        Ok(PackedModel { packed, scales, biases, linears })
    }
}

/// An error of the first `k` entries is the error of them all.
proof fn lemma_entries_error_prefix(
    entries: Seq<(String, KdaPackedLinear)>,
    k: int,
    packed_len: int,
    scales_len: int,
    biases_len: int,
)
    requires
        0 <= k <= entries.len(),
        entries_error(entries.take(k), packed_len, scales_len, biases_len) is Some,
    ensures
        entries_error(entries, packed_len, scales_len, biases_len) == entries_error(
            entries.take(k),
            packed_len,
            scales_len,
            biases_len,
        ),
    decreases entries.len() - k,
{
    if k < entries.len() {
        assert(entries.take(k + 1).drop_last() =~= entries.take(k));
        lemma_entries_error_prefix(entries, k + 1, packed_len, scales_len, biases_len);
    } else {
        assert(entries.take(k) =~= entries);
    }
}

/// Checks the linear `l` named `name` against arenas of these lengths and the
/// linears already accepted.
fn check_entry(
    name: &String,
    l: KdaPackedLinear,
    packed_len: usize,
    scales_len: usize,
    biases_len: usize,
    accepted: &Vec<(String, KdaPackedLinear)>,
) -> (r: Result<(), String>)
    requires
        linear_error(l) is None ==> entry_fits(l, packed_len as int, scales_len as int),
    ensures
        match r {
            Ok(()) => entry_error(
                name@,
                l,
                packed_len as int,
                scales_len as int,
                biases_len as int,
                names_of(accepted@),
            ) is None,
            Err(e) => entry_error(name@, l, packed_len as int, scales_len as int, biases_len as int, names_of(accepted@))
                == Some(e@),
        },
{
    match l.validate() {
        Ok(()) => {},
        Err(e) => {
            return Err(e);
        },
    }
    let end = l.byte_offset + l.packed_bytes();
    if end > packed_len {
        let mut msg = String::from_str("linear ");
        msg.append(quoted(name.as_str()).as_str());
        msg.append(" exceeds weights arena");
        proof {
            reveal_strlit("linear ");
            reveal_strlit(" exceeds weights arena");
            assert(msg@ =~= "linear "@ + debug_quoted(name@) + " exceeds weights arena"@);
        }
        return Err(msg);
    }
    let groups = l.groups_per_row() * l.output_width;
    if l.scale_offset + groups > scales_len || l.bias_offset + groups > biases_len {
        let mut msg = String::from_str("linear ");
        msg.append(quoted(name.as_str()).as_str());
        msg.append(" exceeds scale or bias arena");
        proof {
            reveal_strlit("linear ");
            reveal_strlit(" exceeds scale or bias arena");
            assert(msg@ =~= "linear "@ + debug_quoted(name@) + " exceeds scale or bias arena"@);
        }
        return Err(msg);
    }
    let mut j: usize = 0;
    while j < accepted.len()
        invariant
            j <= accepted@.len(),
            forall|a: int| 0 <= a < j ==> accepted@[a].0@ != name@,
            linear_error(l) is None,
            l.byte_offset + packed_size(l) <= packed_len,
            l.scale_offset + arena_groups(l) <= scales_len,
            l.bias_offset + arena_groups(l) <= biases_len,
        decreases accepted@.len() - j,
    {
        if accepted[j].0 == *name {
            proof {
                assert(names_of(accepted@)[j as int] == name@);
                assert(names_of(accepted@).contains(name@));
            }
            let mut msg = String::from_str("duplicate linear name ");
            msg.append(quoted(name.as_str()).as_str());
            proof {
                reveal_strlit("duplicate linear name ");
                assert(msg@ =~= "duplicate linear name "@ + debug_quoted(name@));
            }
            return Err(msg);
        }
        j = j + 1;
    }
    proof {
        if names_of(accepted@).contains(name@) {
            let w = choose|w: int| 0 <= w < names_of(accepted@).len() && names_of(accepted@)[w] == name@;
            assert(accepted@[w].0@ == name@);
        }
    }
    Ok(())
}

/// The message that refuses a lookup of `name`.
pub open spec fn missing_message(name: Seq<char>) -> Seq<char> {
    "model package has no linear "@ + debug_quoted(name)
}

/// The message that refuses `name` as a control vector.
pub open spec fn vector_message(name: Seq<char>) -> Seq<char> {
    debug_quoted(name) + " must be a one-row INT8 linear"@
}

impl PackedModel {
    /// The descriptor of the linear named `name`.
    pub fn linear(&self, name: &str) -> (r: Result<KdaPackedLinear, String>)
        requires
            self.wf(),
        ensures
            match r {
                Ok(l) => exists|i: int|
                    0 <= i < self.linears@.len() && #[trigger] self.linears@[i].0@ == name@ && self.linears@[i].1
                        == l,
                Err(e) => (forall|i: int| 0 <= i < self.linears@.len() ==> #[trigger] self.linears@[i].0@ != name@)
                    && e@ == missing_message(name@),
            },
    {
        let wanted = String::from_str(name);
        let mut i: usize = 0;
        while i < self.linears.len()
            invariant
                i <= self.linears@.len(),
                wanted@ == name@,
                forall|j: int| 0 <= j < i ==> #[trigger] self.linears@[j].0@ != name@,
            decreases self.linears@.len() - i,
        {
            if self.linears[i].0 == wanted {
                return Ok(self.linears[i].1);
            }
            i = i + 1;
        }
        let mut msg = String::from_str("model package has no linear ");
        msg.append(quoted(name).as_str());
        proof {
            reveal_strlit("model package has no linear ");
            assert(msg@ =~= missing_message(name@));
        }
        Err(msg)
    }

    /// The descriptor of the linear named `name` when it can be read as a
    /// control vector: one output row of eight-bit codes.
    pub fn vector_linear(&self, name: &str) -> (r: Result<KdaPackedLinear, String>)
        requires
            self.wf(),
        ensures
            match r {
                Ok(l) => {
                    &&& l.output_width == 1
                    &&& l.bits == 8
                    &&& exists|i: int|
                        0 <= i < self.linears@.len() && #[trigger] self.linears@[i].0@ == name@ && self.linears@[i].1
                            == l
                },
                Err(e) => {
                    ||| (forall|i: int| 0 <= i < self.linears@.len() ==> #[trigger] self.linears@[i].0@ != name@)
                        && e@ == missing_message(name@)
                    ||| (exists|i: int|
                        0 <= i < self.linears@.len() && #[trigger] self.linears@[i].0@ == name@ && (
                        self.linears@[i].1.output_width != 1 || self.linears@[i].1.bits != 8))
                        && e@ == vector_message(name@)
                },
            },
    {
        let l = match self.linear(name) {
            Ok(l) => l,
            Err(e) => {
                return Err(e);
            },
        };
        if l.output_width != 1 || l.bits != 8 {
            let mut msg = quoted(name);
            msg.append(" must be a one-row INT8 linear");
            proof {
                reveal_strlit(" must be a one-row INT8 linear");
                assert(msg@ =~= vector_message(name@));
            }
            return Err(msg);
        }
        Ok(l)
    }
}

/// `a` comes before `b` in the order of strings: character by character, a
/// proper prefix first.
pub open spec fn chars_before(a: Seq<char>, b: Seq<char>) -> bool
    decreases a.len(),
{
    if a.len() == 0 {
        b.len() > 0
    } else if b.len() == 0 {
        false
    } else if a[0] != b[0] {
        (a[0] as int) < (b[0] as int)
    } else {
        chars_before(a.drop_first(), b.drop_first())
    }
}

proof fn lemma_chars_before_strict(a: Seq<char>, b: Seq<char>)
    ensures
        !(chars_before(a, b) && chars_before(b, a)),
        a != b ==> chars_before(a, b) || chars_before(b, a),
        !chars_before(a, a),
    decreases a.len(),
{
    if a.len() > 0 && b.len() > 0 && a[0] == b[0] {
        lemma_chars_before_strict(a.drop_first(), b.drop_first());
        if a != b {
            assert(a =~= seq![a[0]] + a.drop_first());
            assert(b =~= seq![b[0]] + b.drop_first());
        }
    } else if a.len() > 0 && b.len() > 0 {
        assert((a[0] as int) != (b[0] as int));
    } else if a.len() == 0 && b.len() == 0 {
        assert(a =~= b);
    }
    if a.len() > 0 {
        lemma_chars_before_strict(a.drop_first(), a.drop_first());
    }
}

proof fn lemma_chars_before_transitive(a: Seq<char>, b: Seq<char>, c: Seq<char>)
    requires
        chars_before(a, b),
        chars_before(b, c),
    ensures
        chars_before(a, c),
    decreases a.len(),
{
    if a.len() > 0 && b.len() > 0 && c.len() > 0 && a[0] == b[0] && b[0] == c[0] {
        lemma_chars_before_transitive(a.drop_first(), b.drop_first(), c.drop_first());
    }
}

/// Linear `a` of `m` comes before linear `b` in the order in which a trial
/// lays out the parameters: by element offset, then by name.
pub open spec fn key_before(m: Seq<(String, KdaPackedLinear)>, a: int, b: int) -> bool {
    ||| m[a].1.element_offset < m[b].1.element_offset
    ||| m[a].1.element_offset == m[b].1.element_offset && chars_before(m[a].0@, m[b].0@)
}

/// `ord` lists every linear of `m` once, in the layout order.
pub open spec fn layout_order(m: Seq<(String, KdaPackedLinear)>, ord: Seq<usize>) -> bool {
    &&& ord.len() == m.len()
    &&& forall|i: int| 0 <= i < ord.len() ==> #[trigger] ord[i] < m.len()
    &&& forall|i: int, j: int| 0 <= i < j < ord.len() ==> key_before(m, #[trigger] ord[i] as int, #[trigger] ord[j] as int)
}

/// The indices of the linears of `m` in layout order.
fn sorted_indices(m: &Vec<(String, KdaPackedLinear)>) -> (ord: Vec<usize>)
    requires
        forall|i: int, j: int| 0 <= i < j < m@.len() ==> m@[i].0@ != m@[j].0@,
    ensures
        layout_order(m@, ord@),
{
    let mut ord: Vec<usize> = Vec::new();
    let mut i: usize = 0;
    while i < m.len()
        invariant
            i <= m@.len(),
            forall|a: int, b: int| 0 <= a < b < m@.len() ==> m@[a].0@ != m@[b].0@,
            ord@.len() == i,
            forall|a: int| 0 <= a < ord@.len() ==> #[trigger] ord@[a] < i,
            forall|a: int, b: int|
                0 <= a < b < ord@.len() ==> key_before(m@, #[trigger] ord@[a] as int, #[trigger] ord@[b] as int),
        decreases m@.len() - i,
    {
        let name = chars_of(m[i].0.as_str());
        let offset = m[i].1.element_offset;
        let mut p: usize = 0;
        while p < ord.len() && before(m, ord[p], offset, &name)
            invariant
                p <= ord@.len(),
                name@ == m@[i as int].0@,
                offset == m@[i as int].1.element_offset,
                i < m@.len(),
                forall|a: int| 0 <= a < ord@.len() ==> #[trigger] ord@[a] < i,
                forall|a: int| 0 <= a < p ==> key_before(m@, #[trigger] ord@[a] as int, i as int),
            decreases ord@.len() - p,
        {
            p = p + 1;
        }
        proof {
            assert forall|a: int| p <= a < ord@.len() implies key_before(m@, i as int, #[trigger] ord@[a] as int) by {
                let q = ord@[p as int] as int;
                assert(!key_before(m@, q, i as int));
                assert(m@[q].0@ != m@[i as int].0@);
                lemma_chars_before_strict(m@[q].0@, m@[i as int].0@);
                if a > p {
                    let r = ord@[a] as int;
                    assert(key_before(m@, q, r));
                    if m@[i as int].1.element_offset == m@[q].1.element_offset && m@[q].1.element_offset
                        == m@[r].1.element_offset {
                        lemma_chars_before_transitive(m@[i as int].0@, m@[q].0@, m@[r].0@);
                    }
                }
            }
        }
        let ghost before_ord = ord@;
        ord.insert(p, i);
        proof {
            assert forall|a: int, b: int| 0 <= a < b < ord@.len() implies key_before(
                m@,
                #[trigger] ord@[a] as int,
                #[trigger] ord@[b] as int,
            ) by {
                if a < p && b > p {
                    let x = before_ord[a] as int;
                    let z = before_ord[b - 1] as int;
                    assert(key_before(m@, x, z));
                } else if a < p && b < p {
                    assert(ord@[a] == before_ord[a] && ord@[b] == before_ord[b]);
                } else if a > p {
                    assert(ord@[a] == before_ord[a - 1] && ord@[b] == before_ord[b - 1]);
                }
            }
        }
        i = i + 1;
    }
    ord
}

/// Linear `q` of `m` comes before a linear at element offset `offset` named
/// `name` in layout order.
fn before(m: &Vec<(String, KdaPackedLinear)>, q: usize, offset: usize, name: &Vec<char>) -> (r: bool)
    requires
        q < m@.len(),
    ensures
        r == (m@[q as int].1.element_offset < offset || m@[q as int].1.element_offset == offset && chars_before(
            m@[q as int].0@,
            name@,
        )),
{
    let o = m[q].1.element_offset;
    if o != offset {
        return o < offset;
    }
    let a = chars_of(m[q].0.as_str());
    chars_less(&a, name)
}

/// Whether `a` comes before `b` in the order of strings.
fn chars_less(a: &Vec<char>, b: &Vec<char>) -> (r: bool)
    ensures
        r == chars_before(a@, b@),
{
    let mut k: usize = 0;
    assert(a@.skip(0) =~= a@ && b@.skip(0) =~= b@);
    while k < a.len() && k < b.len() && a[k] == b[k]
        invariant
            k <= a@.len(),
            k <= b@.len(),
            chars_before(a@, b@) == chars_before(a@.skip(k as int), b@.skip(k as int)),
        decreases a@.len() - k,
    {
        proof {
            let sa = a@.skip(k as int);
            let sb = b@.skip(k as int);
            assert(sa.drop_first() =~= a@.skip(k + 1));
            assert(sb.drop_first() =~= b@.skip(k + 1));
        }
        k = k + 1;
    }
    proof {
        assert(a@.skip(k as int).len() == a@.len() - k);
        if k < a@.len() {
            assert(a@.skip(k as int)[0] == a@[k as int]);
        }
        if k < b@.len() {
            assert(b@.skip(k as int)[0] == b@[k as int]);
        }
    }
    if k == a.len() {
        k < b.len()
    } else if k == b.len() {
        false
    } else {
        a[k] < b[k]
    }
}

/// The parameters one linear contributes to a trial: `length` parameters from
/// `offset`, quantized to `bits` bits.
#[derive(Debug, Clone, Copy, PartialEq, Eq, Structural)]
pub struct LeafSpan {
    pub offset: usize,
    pub length: usize,
    pub bits: u8,
}

/// The layout of the linears of `m` taken in the order `ord` from position
/// `i` on, the parameters laid out so far ending at `element` and their packed
/// bytes at `byte`: each linear must continue both, and the counts must fit.
pub open spec fn layout_scan(
    m: Seq<(String, KdaPackedLinear)>,
    ord: Seq<usize>,
    i: int,
    element: int,
    byte: int,
) -> Result<Seq<LeafSpan>, Seq<char>>
    decreases ord.len() - i,
{
    if i < 0 || i >= ord.len() {
        Ok(Seq::empty())
    } else {
        let l = m[ord[i] as int].1;
        let length = l.input_width * l.output_width;
        if l.element_offset != element {
            Err(
                "linear element offset "@ + decimal(l.element_offset as nat) + " does not continue parameter offset "@
                    + decimal(element as nat),
            )
        } else if l.byte_offset != byte {
            Err(
                "linear byte offset "@ + decimal(l.byte_offset as nat) + " does not continue packed byte offset "@
                    + decimal(byte as nat),
            )
        } else if length > usize::MAX {
            Err("linear parameter count overflow"@)
        } else if element + length > usize::MAX {
            Err("model parameter count overflow"@)
        } else if byte + packed_size(l) > usize::MAX {
            Err("model packed byte count overflow"@)
        } else {
            match layout_scan(m, ord, i + 1, element + length, byte + packed_size(l)) {
                Ok(rest) => Ok(seq![LeafSpan { offset: l.element_offset, length: length as usize, bits: l.bits }] + rest),
                Err(e) => Err(e),
            }
        }
    }
}

/// A layout that succeeds gives one span per linear, in layout order: the
/// span of the linear at position `i + j` starts at its element offset, has
/// one parameter per weight (input width times output width) and the bit
/// width of that linear; the first span starts at `element` and the first
/// linear's bytes at `byte`, and each span and each linear's packed bytes end
/// where the next ones begin.
pub proof fn lemma_layout_spans(
    m: Seq<(String, KdaPackedLinear)>,
    ord: Seq<usize>,
    i: int,
    element: int,
    byte: int,
    spans: Seq<LeafSpan>,
)
    requires
        0 <= i <= ord.len(),
        forall|k: int| 0 <= k < ord.len() ==> #[trigger] ord[k] < m.len(),
        layout_scan(m, ord, i, element, byte) == Ok::<Seq<LeafSpan>, Seq<char>>(spans),
    ensures
        spans.len() == ord.len() - i,
        forall|j: int|
            0 <= j < spans.len() ==> {
                let l = m[ord[i + j] as int].1;
                &&& (#[trigger] spans[j]).bits == l.bits
                &&& spans[j].offset == l.element_offset
                &&& spans[j].length == l.input_width * l.output_width
            },
        spans.len() > 0 ==> spans[0].offset == element && m[ord[i] as int].1.byte_offset == byte,
        forall|j: int|
            0 <= j < spans.len() - 1 ==> #[trigger] spans[j + 1].offset == spans[j].offset + spans[j].length,
        forall|j: int|
            i <= j < ord.len() - 1 ==> #[trigger] m[ord[j + 1] as int].1.byte_offset == m[ord[j] as int].1.byte_offset
                + packed_size(m[ord[j] as int].1),
    decreases ord.len() - i,
{
    if i < ord.len() {
        let l = m[ord[i] as int].1;
        let length = l.input_width * l.output_width;
        let rest = layout_scan(m, ord, i + 1, element + length, byte + packed_size(l));
        let tail = rest->Ok_0;
        assert(rest is Ok);
        assert(l.element_offset == element && length <= usize::MAX);
        assert(spans == seq![LeafSpan { offset: l.element_offset, length: length as usize, bits: l.bits }] + tail);
        lemma_layout_spans(m, ord, i + 1, element + length, byte + packed_size(l), tail);
        assert forall|j: int| 0 <= j < spans.len() implies {
            let lj = m[ord[i + j] as int].1;
            &&& (#[trigger] spans[j]).bits == lj.bits
            &&& spans[j].offset == lj.element_offset
            &&& spans[j].length == lj.input_width * lj.output_width
        } by {
            if j > 0 {
                assert(spans[j] == tail[j - 1]);
                assert(i + 1 + (j - 1) == i + j);
            }
        }
        assert forall|j: int| 0 <= j < spans.len() - 1 implies #[trigger] spans[j + 1].offset == spans[j].offset
            + spans[j].length by {
            if j > 0 {
                assert(spans[j] == tail[j - 1]);
                assert(spans[j + 1] == tail[j]);
                let k = j - 1;
                assert(tail[k + 1].offset == tail[k].offset + tail[k].length);
            } else if tail.len() > 0 {
                assert(spans[1] == tail[0]);
                assert(spans[0].offset == element && spans[0].length == length);
                assert(tail[0].offset == element + length);
            }
        }
        assert forall|j: int| i <= j < ord.len() - 1 implies #[trigger] m[ord[j + 1] as int].1.byte_offset
            == m[ord[j] as int].1.byte_offset + packed_size(m[ord[j] as int].1) by {
            if j == i {
                assert(tail.len() > 0);
            }
        }
    }
}

/// `offset_message` followed by the decimal renderings of `a` and `b`.
fn continuity_message(first: &str, a: usize, second: &str, b: usize) -> (r: String)
    ensures
        r@ == first@ + decimal(a as nat) + second@ + decimal(b as nat),
{
    let mut msg = String::from_str(first);
    push_decimal(&mut msg, a as u64);
    msg.append(second);
    push_decimal(&mut msg, b as u64);
    msg
}

impl PackedModel {
    /// The parameters that a trial perturbs, one span per linear: the linears
    /// taken by element offset (then by name) must continue one another in
    /// both the parameter and the packed byte offsets, starting at zero.
    pub fn trial_leaves(&self) -> (r: Result<Vec<LeafSpan>, String>)
        requires
            self.wf(),
        ensures
            exists|ord: Seq<usize>|
                #[trigger] layout_order(self.linears@, ord) && match r {
                    Ok(spans) => layout_scan(self.linears@, ord, 0, 0, 0) == Ok::<Seq<LeafSpan>, Seq<char>>(spans@),
                    Err(e) => layout_scan(self.linears@, ord, 0, 0, 0) == Err::<Seq<LeafSpan>, Seq<char>>(e@),
                },
            r matches Ok(spans) ==> exists|ord: Seq<usize>|
                #[trigger] layout_order(self.linears@, ord) && spans@.len() == self.linears@.len() && forall|i: int|
                    0 <= i < spans@.len() ==> {
                        let l = self.linears@[ord[i] as int].1;
                        &&& (#[trigger] spans@[i]).bits == l.bits
                        &&& spans@[i].offset == l.element_offset
                        &&& spans@[i].length == l.input_width * l.output_width
                    },
    {
        let ord = sorted_indices(&self.linears);
        let ghost m = self.linears@;
        let mut spans: Vec<LeafSpan> = Vec::new();
        let mut element: usize = 0;
        let mut byte: usize = 0;
        let mut i: usize = 0;
        while i < ord.len()
            invariant
                self.wf(),
                m == self.linears@,
                layout_order(m, ord@),
                i <= ord@.len(),
                self.packed@.len() <= usize::MAX,
                match layout_scan(m, ord@, i as int, element as int, byte as int) {
                    Ok(rest) => layout_scan(m, ord@, 0, 0, 0) == Ok::<Seq<LeafSpan>, Seq<char>>(spans@ + rest),
                    Err(e) => layout_scan(m, ord@, 0, 0, 0) == Err::<Seq<LeafSpan>, Seq<char>>(e),
                },
            decreases ord@.len() - i,
        {
            let l = self.linears[ord[i]].1;
            proof {
                assert(linear_error(m[ord@[i as int] as int].1) is None);
            }
            if l.element_offset != element {
                let msg = continuity_message(
                    "linear element offset ",
                    l.element_offset,
                    " does not continue parameter offset ",
                    element,
                );
                proof {
                    assert(layout_scan(m, ord@, i as int, element as int, byte as int) is Err);
                }
                return Err(msg);
            }
            if l.byte_offset != byte {
                let msg = continuity_message(
                    "linear byte offset ",
                    l.byte_offset,
                    " does not continue packed byte offset ",
                    byte,
                );
                proof {
                    assert(layout_scan(m, ord@, i as int, element as int, byte as int) is Err);
                }
                return Err(msg);
            }
            let length = match l.input_width.checked_mul(l.output_width) {
                Some(n) => n,
                None => {
                    return Err(String::from_str("linear parameter count overflow"));
                },
            };
            let next_element = match element.checked_add(length) {
                Some(n) => n,
                None => {
                    return Err(String::from_str("model parameter count overflow"));
                },
            };
            let size = l.packed_bytes();
            let next_byte = match byte.checked_add(size) {
                Some(n) => n,
                None => {
                    return Err(String::from_str("model packed byte count overflow"));
                },
            };
            let span = LeafSpan { offset: l.element_offset, length, bits: l.bits };
            proof {
                let rest = layout_scan(m, ord@, i + 1, next_element as int, next_byte as int);
                assert(layout_scan(m, ord@, i as int, element as int, byte as int) == match rest {
                    Ok(r2) => Ok(seq![span] + r2),
                    Err(e) => Err::<Seq<LeafSpan>, Seq<char>>(e),
                });
                match rest {
                    Ok(r2) => {
                        assert(spans@.push(span) + r2 =~= spans@ + (seq![span] + r2));
                    },
                    Err(_) => {},
                }
            }
            spans.push(span);
            element = next_element;
            byte = next_byte;
            i = i + 1;
        }
        proof {
            assert(layout_scan(m, ord@, i as int, element as int, byte as int) == Ok::<Seq<LeafSpan>, Seq<char>>(
                Seq::empty(),
            ));
            assert(spans@ + Seq::<LeafSpan>::empty() =~= spans@);
            assert(layout_order(self.linears@, ord@));
            lemma_layout_spans(m, ord@, 0, 0, 0, spans@);
            assert forall|k: int| 0 <= k < spans@.len() implies {
                let l = self.linears@[ord@[k] as int].1;
                &&& (#[trigger] spans@[k]).bits == l.bits
                &&& spans@[k].offset == l.element_offset
                &&& spans@[k].length == l.input_width * l.output_width
            } by {
                assert(0 + k == k);
            }
        }
        Ok(spans)
    }
}

/// With distinct names, no linear comes before itself and of two linears at
/// most one comes before the other.
proof fn lemma_key_before_strict(m: Seq<(String, KdaPackedLinear)>, p: int, q: int)
    requires
        0 <= p < m.len(),
        0 <= q < m.len(),
    ensures
        !key_before(m, p, p),
        !(key_before(m, p, q) && key_before(m, q, p)),
{
    lemma_chars_before_strict(m[p].0@, m[q].0@);
    lemma_chars_before_strict(m[p].0@, m[p].0@);
}

/// Some position of `ord` holds `x`.
pub open spec fn lists(ord: Seq<usize>, x: int) -> bool {
    exists|i: int| 0 <= i < ord.len() && ord[i] == x
}

/// A layout order lists every linear.
proof fn lemma_layout_order_full(m: Seq<(String, KdaPackedLinear)>, ord: Seq<usize>)
    requires
        layout_order(m, ord),
    ensures
        forall|x: int| 0 <= x < m.len() ==> #[trigger] lists(ord, x),
{
    let n = m.len() as int;
    let s = ord.map_values(|x: usize| x as int);
    assert forall|i: int, j: int| 0 <= i < s.len() && 0 <= j < s.len() && i != j implies s[i] != s[j] by {
        if i < j {
            lemma_key_before_strict(m, ord[i] as int, ord[j] as int);
            assert(key_before(m, ord[i] as int, ord[j] as int));
        } else {
            lemma_key_before_strict(m, ord[j] as int, ord[i] as int);
            assert(key_before(m, ord[j] as int, ord[i] as int));
        }
    }
    assert(s.no_duplicates());
    s.unique_seq_to_set();
    vstd::set_lib::lemma_int_range(0, n);
    let range = vstd::set_lib::set_int_range(0, n);
    assert(s.to_set().subset_of(range)) by {
        assert forall|x: int| s.to_set().contains(x) implies range.contains(x) by {
            let i = choose|i: int| 0 <= i < s.len() && s[i] == x;
            assert(ord[i] < m.len());
        }
    }
    vstd::set_lib::lemma_len_subset(s.to_set(), range);
    vstd::set_lib::lemma_subset_equality(s.to_set(), range);
    assert forall|x: int| 0 <= x < m.len() implies #[trigger] lists(ord, x) by {
        assert(range.contains(x));
        assert(s.to_set().contains(x));
        let i = choose|i: int| 0 <= i < s.len() && s[i] == x;
        assert(ord[i] == x);
    }
}

/// The layout order is unique: with distinct names, two orders that list
/// every linear once by element offset and then by name are the same, so the
/// layout a trial gets is determined by the package.
pub proof fn lemma_layout_order_unique(m: Seq<(String, KdaPackedLinear)>, a: Seq<usize>, b: Seq<usize>)
    requires
        forall|i: int, j: int| 0 <= i < j < m.len() ==> m[i].0@ != m[j].0@,
        layout_order(m, a),
        layout_order(m, b),
    ensures
        a == b,
{
    lemma_layout_order_full(m, a);
    lemma_layout_order_full(m, b);
    lemma_layout_prefix(m, a, b, a.len() as int);
    assert(a =~= b);
}

/// The first `k` positions of two layout orders agree.
proof fn lemma_layout_prefix(m: Seq<(String, KdaPackedLinear)>, a: Seq<usize>, b: Seq<usize>, k: int)
    requires
        forall|i: int, j: int| 0 <= i < j < m.len() ==> m[i].0@ != m[j].0@,
        layout_order(m, a),
        layout_order(m, b),
        forall|x: int| 0 <= x < m.len() ==> #[trigger] lists(a, x),
        forall|x: int| 0 <= x < m.len() ==> #[trigger] lists(b, x),
        0 <= k <= a.len(),
    ensures
        forall|i: int| 0 <= i < k ==> a[i] == b[i],
    decreases k,
{
    if k > 0 {
        lemma_layout_prefix(m, a, b, k - 1);
        let p = k - 1;
        let x = a[p] as int;
        let y = b[p] as int;
        assert(lists(b, x) && lists(a, y));
        let j = choose|j: int| 0 <= j < b.len() && b[j] == x;
        let jj = choose|jj: int| 0 <= jj < a.len() && a[jj] == y;
        if x != y {
            if j < p {
                assert(a[j] == b[j]);
                lemma_key_before_strict(m, x, x);
                assert(key_before(m, a[j] as int, a[p] as int));
            }
            if jj < p {
                assert(a[jj] == b[jj]);
                lemma_key_before_strict(m, y, y);
                assert(key_before(m, b[jj] as int, b[p] as int));
            }
            assert(j > p && jj > p);
            assert(key_before(m, b[p] as int, b[j] as int));
            assert(key_before(m, a[p] as int, a[jj] as int));
            lemma_key_before_strict(m, x, y);
        }
    }
}

} // verus!
