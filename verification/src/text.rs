//! Character-level helpers shared by the message builders and parsers:
//! decimal rendering of counts, Unicode white space and ASCII digits, and
//! facts about texts written piece by piece.

use vstd::prelude::*;

verus! {

/// The ASCII digit for `d` (taken modulo ten).
pub open spec fn digit_char(d: nat) -> char {
    let d = d % 10;
    if d == 0 {
        '0'
    } else if d == 1 {
        '1'
    } else if d == 2 {
        '2'
    } else if d == 3 {
        '3'
    } else if d == 4 {
        '4'
    } else if d == 5 {
        '5'
    } else if d == 6 {
        '6'
    } else if d == 7 {
        '7'
    } else if d == 8 {
        '8'
    } else {
        '9'
    }
}

/// Decimal rendering of `n`, most significant digit first, with no leading zeros.
pub open spec fn decimal(n: nat) -> Seq<char>
    decreases n,
{
    if n < 10 {
        seq![digit_char(n)]
    } else {
        decimal(n / 10).push(digit_char(n % 10))
    }
}

fn digit_str(d: u64) -> (s: &'static str)
    requires
        d < 10,
    ensures
        s@ == seq![digit_char(d as nat)],
{
    if d == 0 {
        proof { reveal_strlit("0"); }
        "0"
    } else if d == 1 {
        proof { reveal_strlit("1"); }
        "1"
    } else if d == 2 {
        proof { reveal_strlit("2"); }
        "2"
    } else if d == 3 {
        proof { reveal_strlit("3"); }
        "3"
    } else if d == 4 {
        proof { reveal_strlit("4"); }
        "4"
    } else if d == 5 {
        proof { reveal_strlit("5"); }
        "5"
    } else if d == 6 {
        proof { reveal_strlit("6"); }
        "6"
    } else if d == 7 {
        proof { reveal_strlit("7"); }
        "7"
    } else if d == 8 {
        proof { reveal_strlit("8"); }
        "8"
    } else {
        proof { reveal_strlit("9"); }
        "9"
    }
}

/// Appends the decimal rendering of `n` to `out`.
pub fn push_decimal(out: &mut String, n: u64)
    ensures
        final(out)@ == old(out)@ + decimal(n as nat),
    decreases n,
{
    if n >= 10 {
        push_decimal(out, n / 10);
    }
    out.append(digit_str(n % 10));
    proof {
        assert(old(out)@ + decimal(n as nat) =~= final(out)@) by {
            if n < 10 {
                assert((n % 10) as nat == n as nat);
            }
        }
    }
}

/// `prefix` followed by the decimal rendering of `n`.
pub fn message_with(prefix: &str, n: u64) -> (r: String)
    ensures
        r@ == prefix@ + decimal(n as nat),
{
    let mut out = String::from_str(prefix);
    push_decimal(&mut out, n);
    out
}

/// The characters of `s`, in order.
pub fn chars_of(s: &str) -> (r: Vec<char>)
    ensures
        r@ == s@,
{
    broadcast use vstd::string::group_string_axioms;
    let mut r: Vec<char> = Vec::new();
    for c in it: s.chars()
        invariant
            r@ == it.seq().take(it.index() as int),
            it.seq() == s@,
    {
        r.push(c);
    }
    r
}

/// Unicode `White_Space` characters, the set that `char::is_whitespace` tests.
pub open spec fn white_space(c: char) -> bool {
    let u = c as u32;
    ||| 0x09 <= u <= 0x0d
    ||| u == 0x20
    ||| u == 0x85
    ||| u == 0xa0
    ||| u == 0x1680
    ||| 0x2000 <= u <= 0x200a
    ||| u == 0x2028
    ||| u == 0x2029
    ||| u == 0x202f
    ||| u == 0x205f
    ||| u == 0x3000
}

pub fn is_white_space(c: char) -> (r: bool)
    ensures
        r == white_space(c),
{
    let u = c as u32;
    (0x09 <= u && u <= 0x0d) || u == 0x20 || u == 0x85 || u == 0xa0 || u == 0x1680 || (0x2000
        <= u && u <= 0x200a) || u == 0x2028 || u == 0x2029 || u == 0x202f || u == 0x205f || u
        == 0x3000
}

/// ASCII decimal digits `'0'..='9'`.
pub open spec fn ascii_digit(c: char) -> bool {
    '0' <= c <= '9'
}

/// The value of an ASCII digit.
pub open spec fn digit_value(c: char) -> nat {
    ((c as u32) - 48) as nat
}

/// The value of a run of ASCII digits, most significant first.
pub open spec fn digits_value(s: Seq<char>) -> nat
    decreases s.len(),
{
    if s.len() == 0 {
        0
    } else {
        digits_value(s.drop_last()) * 10 + digit_value(s.last())
    }
}

/// Number of leading characters of `s` (from `i` on) that satisfy `white_space`.
pub open spec fn white_run(s: Seq<char>, i: int) -> int
    decreases s.len() - i,
{
    if i < 0 || i >= s.len() || !white_space(s[i]) {
        0
    } else {
        1 + white_run(s, i + 1)
    }
}

/// Number of leading ASCII digits of `s` from `i` on.
pub open spec fn digit_run(s: Seq<char>, i: int) -> int
    decreases s.len() - i,
{
    if i < 0 || i >= s.len() || !ascii_digit(s[i]) {
        0
    } else {
        1 + digit_run(s, i + 1)
    }
}

/// `k` occurs in `t` at position `i`.
pub open spec fn occurs_at(t: Seq<char>, k: Seq<char>, i: int) -> bool {
    0 <= i && i + k.len() <= t.len() && t.subrange(i, i + k.len()) == k
}

/// The first position at or after `i` where `k` occurs in `t`.
pub open spec fn search(t: Seq<char>, k: Seq<char>, i: int) -> Option<int>
    decreases t.len() + 1 - i,
{
    if i < 0 || i + k.len() > t.len() {
        None
    } else if occurs_at(t, k, i) {
        Some(i)
    } else {
        search(t, k, i + 1)
    }
}

/// Whether `k` occurs in `t` at `i`.
pub fn matches_at(t: &Vec<char>, k: &Vec<char>, i: usize) -> (r: bool)
    requires
        i + k@.len() <= t@.len(),
    ensures
        r == occurs_at(t@, k@, i as int),
{
    let n = t.len();
    let mut j: usize = 0;
    while j < k.len()
        invariant
            n == t@.len(),
            i + k@.len() <= t@.len(),
            j <= k@.len(),
            forall|m: int| 0 <= m < j ==> t@[i + m] == k@[m],
        decreases k@.len() - j,
    {
        assert(i + j < n);
        if t[i + j] != k[j] {
            assert(t@.subrange(i as int, i + k@.len())[j as int] != k@[j as int]);
            return false;
        }
        j = j + 1;
    }
    assert(t@.subrange(i as int, i + k@.len()) =~= k@);
    true
}

/// The first position where `k` occurs in `t`.
pub fn find(t: &Vec<char>, k: &Vec<char>) -> (r: Option<usize>)
    ensures
        match r {
            Some(i) => search(t@, k@, 0) == Some(i as int) && occurs_at(t@, k@, i as int),
            None => search(t@, k@, 0) is None,
        },
{
    if k.len() > t.len() {
        return None;
    }
    let mut i: usize = 0;
    let last = t.len() - k.len();
    while i <= last
        invariant
            last == t@.len() - k@.len(),
            i <= last + 1,
            search(t@, k@, 0) == search(t@, k@, i as int),
        decreases last + 1 - i,
    {
        if matches_at(t, k, i) {
            return Some(i);
        }
        if i == last {
            assert(search(t@, k@, i + 1) is None);
            return None;
        }
        i = i + 1;
    }
    None
}

/// Whether `a` and `b` hold the same characters.
pub fn same_chars(a: &Vec<char>, b: &Vec<char>) -> (r: bool)
    ensures
        r == (a@ == b@),
{
    if a.len() != b.len() {
        return false;
    }
    let mut i: usize = 0;
    while i < a.len()
        invariant
            a@.len() == b@.len(),
            i <= a@.len(),
            forall|m: int| 0 <= m < i ==> a@[m] == b@[m],
        decreases a@.len() - i,
    {
        if a[i] != b[i] {
            return false;
        }
        i = i + 1;
    }
    assert(a@ =~= b@);
    true
}

/// A decimal rendering is a non-empty run of ASCII digits that reads back as
/// its number.
pub proof fn lemma_decimal_reads_back(n: nat)
    ensures
        decimal(n).len() >= 1,
        forall|i: int| 0 <= i < decimal(n).len() ==> ascii_digit(#[trigger] decimal(n)[i]),
        digits_value(decimal(n)) == n,
    decreases n,
{
    lemma_digit_char(n);
    if n >= 10 {
        lemma_decimal_reads_back(n / 10);
        let d = decimal(n);
        assert(d.drop_last() =~= decimal(n / 10));
        assert forall|i: int| 0 <= i < d.len() implies ascii_digit(#[trigger] d[i]) by {
            if i < d.len() - 1 {
                assert(d[i] == decimal(n / 10)[i]);
            }
        }
        assert(d.last() == digit_char(n % 10));
        lemma_digit_char(n % 10);
        assert((n / 10) * 10 + n % 10 == n) by (nonlinear_arith);
        assert((n % 10) % 10 == n % 10) by (nonlinear_arith);
        assert(digits_value(d) == digits_value(d.drop_last()) * 10 + digit_value(d.last()));
        assert(digits_value(d.drop_last()) == n / 10);
        assert(digit_value(d.last()) == n % 10);
    } else {
        let d = decimal(n);
        assert(d.drop_last() =~= Seq::<char>::empty());
        assert(digits_value(d) == digits_value(d.drop_last()) * 10 + digit_value(d.last()));
        assert(digit_value(d.last()) == n % 10);
        assert(n % 10 == n);
    }
}

/// The digit character of `d` is an ASCII digit worth `d % 10`.
proof fn lemma_digit_char(d: nat)
    ensures
        ascii_digit(digit_char(d)),
        digit_value(digit_char(d)) == d % 10,
{
}

/// `k` occurring at `i` puts its characters there.
pub proof fn lemma_occurs_char(t: Seq<char>, k: Seq<char>, i: int, j: int)
    requires
        occurs_at(t, k, i),
        0 <= j < k.len(),
    ensures
        t[i + j] == k[j],
{
    assert(t.subrange(i, i + k.len())[j] == t[i + j]);
}

/// The search from `j` stops at `p` when `k` occurs there and nowhere between.
pub proof fn lemma_search_first(t: Seq<char>, k: Seq<char>, j: int, p: int)
    requires
        0 <= j <= p,
        occurs_at(t, k, p),
        forall|i: int| j <= i < p ==> !#[trigger] occurs_at(t, k, i),
    ensures
        search(t, k, j) == Some(p),
    decreases p - j,
{
    if j < p {
        lemma_search_first(t, k, j + 1, p);
    }
}

/// A run of `len` digits from `a`, followed by a non-digit or the end, is the
/// digit run there.
pub proof fn lemma_digit_run_block(t: Seq<char>, a: int, len: int)
    requires
        0 <= a,
        0 <= len,
        a + len <= t.len(),
        forall|i: int| a <= i < a + len ==> ascii_digit(#[trigger] t[i]),
        a + len == t.len() || !ascii_digit(t[a + len]),
    ensures
        digit_run(t, a) == len,
    decreases len,
{
    if len > 0 {
        lemma_digit_run_block(t, a + 1, len - 1);
    }
}

/// The pieces written one after another.
pub open spec fn joined(pieces: Seq<Seq<char>>) -> Seq<char>
    decreases pieces.len(),
{
    if pieces.len() == 0 {
        Seq::empty()
    } else {
        joined(pieces.drop_last()) + pieces.last()
    }
}

/// Where piece `k` starts in the joined text.
pub open spec fn piece_start(pieces: Seq<Seq<char>>, k: int) -> int {
    joined(pieces.take(k)).len() as int
}

/// Each piece starts where the one before ends.
pub proof fn lemma_piece_start_step(pieces: Seq<Seq<char>>, k: int)
    requires
        0 <= k < pieces.len(),
    ensures
        piece_start(pieces, k + 1) == piece_start(pieces, k) + pieces[k].len(),
{
    assert(pieces.take(k + 1).drop_last() =~= pieces.take(k));
}

/// The joined text holds piece `k` from its start.
pub proof fn lemma_joined_at(pieces: Seq<Seq<char>>, k: int, i: int)
    requires
        0 <= k < pieces.len(),
        0 <= i < pieces[k].len(),
    ensures
        piece_start(pieces, k) + i < joined(pieces).len(),
        joined(pieces)[piece_start(pieces, k) + i] == pieces[k][i],
    decreases pieces.len(),
{
    let n = pieces.len() - 1;
    let front = pieces.drop_last();
    if k == n {
        assert(pieces.take(k) =~= front);
    } else {
        assert(front.take(k) =~= pieces.take(k));
        lemma_joined_at(front, k, i);
        assert(front[k] == pieces[k]);
    }
}

} // verus!
