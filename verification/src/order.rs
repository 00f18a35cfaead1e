//! Chunked natural ordering: digit runs compare as numbers, everything else as
//! text. `9%` before `80%`, `web-2` before `web-10`, `4.0K` before `12G`.

use crate::float::{
    lemma_dyadic, lemma_exact, lemma_nearest_grows, lemma_nearest_is, lemma_scaled_grows,
    lemma_whole_numbers, Double, Format,
};
use crate::lines::{lemma_first_in_is, lemma_first_out_is};
use crate::number::digits_value;
use crate::reading::{
    alike, double_of, lemma_pow10_pos, mantissa_of, numeral_of, pow10, read_double, unsigned_part,
    Numeral,
};
use crate::text::{
    all_in, ascii_lowered, chars_of, find_out, first_out, is_ascii_text, is_digit, lemma_first_out,
    lemma_last_out, lowercase, strip_back, to_lowercase, trim_back, views, Class, Order,
};
use std::cmp::Ordering;
use vstd::arithmetic::power2::{lemma2_to64, lemma2_to64_rest, lemma_pow2_pos, pow2};
use vstd::prelude::*;
use vstd::slice::slice_subrange;

verus! {

/// A chunk of a text: a number, by its bits in double precision, or the code of
/// a character that is no digit.
#[derive(Debug, Clone, Copy, PartialEq, Eq, Structural)]
pub enum Chunk {
    Number(u64),
    Other(u32),
}

/// What a `Chunk` holds.
pub enum ChunkView {
    Number(u64),
    Other(int),
}

impl View for Chunk {
    type V = ChunkView;

    open spec fn view(&self) -> ChunkView {
        match self {
            Chunk::Number(x) => ChunkView::Number(*x),
            Chunk::Other(x) => ChunkView::Other(*x as int),
        }
    }
}

/// How long the number at the start of a text is: digits, and more of them
/// behind a point.
pub open spec fn number_len(s: Seq<char>) -> int {
    let n = first_out(s, Class::Digit);
    if 0 <= n < s.len() && s[n] == '.' {
        n + 1 + first_out(s.skip(n + 1), Class::Digit)
    } else {
        n
    }
}

/// The number that a run of digits stands for.
pub open spec fn number_value(s: Seq<char>) -> u64 {
    match double_of(strip_back(s, Class::Only('.'))) {
        Some(x) => x.bits,
        None => 0,
    }
}

/// The chunks of a text.
pub open spec fn chunks_of(s: Seq<char>) -> Seq<ChunkView>
    decreases s.len(),
{
    if s.len() == 0 {
        seq![]
    } else if is_digit(s[0]) {
        let n = number_len(s);
        if 0 < n <= s.len() {
            seq![ChunkView::Number(number_value(s.take(n)))] + chunks_of(s.skip(n))
        } else {
            seq![]
        }
    } else {
        seq![ChunkView::Other(s[0] as int)] + chunks_of(s.skip(1))
    }
}

/// Where the digits begin.
pub const DIGIT: u32 = 0x30;

/// Whether a code is that of a digit.
pub open spec fn is_digit_code(x: int) -> bool {
    0x30 <= x <= 0x39
}

/// Two chunks in order: numbers by size, characters by code, and a number among
/// characters where the digits stand.
pub open spec fn chunk_order(a: ChunkView, b: ChunkView) -> Order {
    match (a, b) {
        (ChunkView::Number(x), ChunkView::Number(y)) => if x < y {
            Order::Less
        } else if x > y {
            Order::Greater
        } else {
            Order::Equal
        },
        (ChunkView::Other(x), ChunkView::Other(y)) => if x < y {
            Order::Less
        } else if x > y {
            Order::Greater
        } else {
            Order::Equal
        },
        (ChunkView::Number(_), ChunkView::Other(y)) => if 0x30 < y {
            Order::Less
        } else {
            Order::Greater
        },
        (ChunkView::Other(x), ChunkView::Number(_)) => if 0x30 < x {
            Order::Greater
        } else {
            Order::Less
        },
    }
}

/// Two texts by their chunks, the first difference deciding, the shorter first.
pub open spec fn chunks_order(a: Seq<ChunkView>, b: Seq<ChunkView>) -> Order
    decreases a.len(),
{
    if a.len() == 0 && b.len() == 0 {
        Order::Equal
    } else if a.len() == 0 {
        Order::Less
    } else if b.len() == 0 {
        Order::Greater
    } else if chunk_order(a[0], b[0]) != Order::Equal {
        chunk_order(a[0], b[0])
    } else {
        chunks_order(a.skip(1), b.skip(1))
    }
}

/// Two texts in natural order.
pub open spec fn natural_order(a: Seq<char>, b: Seq<char>) -> Order {
    chunks_order(chunks_of(lowercase(a)), chunks_of(lowercase(b)))
}

fn run_len(s: &[char]) -> (n: usize)
    requires
        s@.len() > 0,
        is_digit(s@[0]),
    ensures
        n == number_len(s@),
        0 < n <= s@.len(),
{
    let n = find_out(s, Class::Digit);
    proof {
        lemma_first_out(s@, Class::Digit);
        assert(n > 0);
    }
    if n < s.len() && s[n] == '.' {
        let rest = slice_subrange(s, n + 1, s.len());
        assert(rest@ =~= s@.skip(n + 1));
        let m = find_out(rest, Class::Digit);
        proof {
            lemma_first_out(rest@, Class::Digit);
        }
        n + 1 + m
    } else {
        n
    }
}

fn take_number(s: &[char]) -> (r: u64)
    ensures
        r == number_value(s@),
{
    match read_double(trim_back(s, Class::Only('.'))) {
        Some(x) => x.bits,
        None => 0,
    }
}

fn code(c: char) -> (r: u32)
    ensures
        r as int == c as int,
{
    c as u32
}

/// The chunks of a text in lower case.
pub fn chunks(lower: &str) -> (r: Vec<Chunk>)
    ensures
        views(r@) == chunks_of(lower@),
{
    let cs = chars_of(lower);
    let mut rest = cs.as_slice();
    let mut out: Vec<Chunk> = Vec::new();
    assert(views(out@) + chunks_of(rest@) =~= chunks_of(lower@));
    while rest.len() > 0
        invariant
            views(out@) + chunks_of(rest@) == chunks_of(lower@),
        decreases rest@.len(),
    {
        let c = rest[0];
        let ghost before = out@;
        if Class::Digit.has(c) {
            let n = run_len(rest);
            let head = slice_subrange(rest, 0, n);
            let tail = slice_subrange(rest, n, rest.len());
            assert(head@ =~= rest@.take(n as int));
            assert(tail@ =~= rest@.skip(n as int));
            let k = Chunk::Number(take_number(head));
            out.push(k);
            assert(views(out@) =~= views(before).push(k@));
            assert(views(out@) + chunks_of(tail@) =~= views(before) + (seq![k@] + chunks_of(tail@)));
            rest = tail;
        } else {
            let tail = slice_subrange(rest, 1, rest.len());
            assert(tail@ =~= rest@.skip(1));
            let k = Chunk::Other(code(c));
            out.push(k);
            assert(views(out@) =~= views(before).push(k@));
            assert(views(out@) + chunks_of(tail@) =~= views(before) + (seq![k@] + chunks_of(tail@)));
            rest = tail;
        }
    }
    assert(views(out@) =~= chunks_of(lower@));
    out
}

fn order_chunk(a: Chunk, b: Chunk) -> (r: Order)
    ensures
        r == chunk_order(a@, b@),
{
    match (a, b) {
        (Chunk::Number(x), Chunk::Number(y)) => if x < y {
            Order::Less
        } else if x > y {
            Order::Greater
        } else {
            Order::Equal
        },
        (Chunk::Other(x), Chunk::Other(y)) => if x < y {
            Order::Less
        } else if x > y {
            Order::Greater
        } else {
            Order::Equal
        },
        (Chunk::Number(_), Chunk::Other(y)) => if DIGIT < y {
            Order::Less
        } else {
            Order::Greater
        },
        (Chunk::Other(x), Chunk::Number(_)) => if DIGIT < x {
            Order::Greater
        } else {
            Order::Less
        },
    }
}

/// Two texts, by their chunks, in natural order.
pub fn order_chunks(a: &Vec<Chunk>, b: &Vec<Chunk>) -> (r: Order)
    ensures
        r == chunks_order(views(a@), views(b@)),
{
    let mut i: usize = 0;
    let ghost x = views(a@);
    let ghost y = views(b@);
    assert(x.skip(0) =~= x);
    assert(y.skip(0) =~= y);
    while i < a.len() && i < b.len()
        invariant
            i <= a.len(),
            i <= b.len(),
            x == views(a@),
            y == views(b@),
            chunks_order(x, y) == chunks_order(x.skip(i as int), y.skip(i as int)),
        decreases a.len() - i,
    {
        assert(x.skip(i as int)[0] == a@[i as int]@);
        assert(y.skip(i as int)[0] == b@[i as int]@);
        match order_chunk(a[i], b[i]) {
            Order::Equal => {},
            other => {
                return other;
            },
        }
        assert(x.skip(i as int).skip(1) =~= x.skip(i + 1));
        assert(y.skip(i as int).skip(1) =~= y.skip(i + 1));
        i += 1;
    }
    if i < a.len() {
        Order::Greater
    } else if i < b.len() {
        Order::Less
    } else {
        Order::Equal
    }
}

/// An order as the one of std.
pub open spec fn as_std(o: Order) -> Ordering {
    match o {
        Order::Less => Ordering::Less,
        Order::Equal => Ordering::Equal,
        Order::Greater => Ordering::Greater,
    }
}

/// Chunked natural ordering: digit runs compare as numbers, everything else
/// as text. `9%` before `80%`, `web-2` before `web-10`, `4.0K` before `12G`.
pub fn natural_cmp(a: &str, b: &str) -> (r: Ordering)
    ensures
        r == as_std(natural_order(a@, b@)),
        is_ascii_text(a@) && is_ascii_text(b@) ==> r == as_std(
            chunks_order(chunks_of(ascii_lowered(a@)), chunks_of(ascii_lowered(b@))),
        ),
{
    let x = to_lowercase(a);
    let y = to_lowercase(b);
    let x = chunks(x.as_str());
    let y = chunks(y.as_str());
    match order_chunks(&x, &y) {
        Order::Less => Ordering::Less,
        Order::Equal => Ordering::Equal,
        Order::Greater => Ordering::Greater,
    }
}

// ---------------------------------------------------------------- laws ----

proof fn lemma_chunk_order_chains(a: ChunkView, b: ChunkView, c: ChunkView)
    requires
        !(a matches ChunkView::Other(x) && is_digit_code(x)),
        !(b matches ChunkView::Other(x) && is_digit_code(x)),
        !(c matches ChunkView::Other(x) && is_digit_code(x)),
        chunk_order(a, b) != Order::Greater,
        chunk_order(b, c) != Order::Greater,
    ensures
        chunk_order(a, c) != Order::Greater,
        chunk_order(a, c) == Order::Equal ==> chunk_order(a, b) == Order::Equal && chunk_order(b, c)
            == Order::Equal,
        chunk_order(a, b) == Order::Equal && chunk_order(b, c) == Order::Equal ==> chunk_order(a, c)
            == Order::Equal,
{
}

/// Whether no chunk is a lone digit, which a number would have taken in.
pub open spec fn well_chunked(s: Seq<ChunkView>) -> bool {
    forall|i: int| 0 <= i < s.len() ==> !((#[trigger] s[i]) matches ChunkView::Other(x) && is_digit_code(x))
}

proof fn lemma_chunks_are_well(s: Seq<char>)
    ensures
        well_chunked(chunks_of(s)),
    decreases s.len(),
{
    if s.len() > 0 {
        let n = if is_digit(s[0]) {
            number_len(s)
        } else {
            1
        };
        if 0 < n <= s.len() {
            lemma_chunks_are_well(s.skip(n));
            let t = chunks_of(s.skip(n));
            assert forall|i: int| 0 <= i < chunks_of(s).len() implies !((
            #[trigger] chunks_of(s)[i]) matches ChunkView::Other(x) && is_digit_code(x)) by {
                if i > 0 {
                    assert(chunks_of(s)[i] == t[i - 1]);
                } else if !is_digit(s[0]) {
                    assert(chunks_of(s)[0] == ChunkView::Other(s[0] as int));
                    assert(!is_digit_code(s[0] as int));
                }
            }
        }
    }
}

proof fn lemma_chunks_order_chains(a: Seq<ChunkView>, b: Seq<ChunkView>, c: Seq<ChunkView>)
    requires
        well_chunked(a),
        well_chunked(b),
        well_chunked(c),
        chunks_order(a, b) != Order::Greater,
        chunks_order(b, c) != Order::Greater,
    ensures
        chunks_order(a, c) != Order::Greater,
    decreases a.len(),
{
    if a.len() > 0 {
        lemma_chunk_order_chains(a[0], b[0], c[0]);
        if chunk_order(a[0], c[0]) == Order::Equal {
            assert forall|s: Seq<ChunkView>| well_chunked(s) && s.len() > 0 implies well_chunked(
                #[trigger] s.skip(1),
            ) by {
                assert forall|i: int| 0 <= i < s.skip(1).len() implies !((
                #[trigger] s.skip(1)[i]) matches ChunkView::Other(x) && is_digit_code(x)) by {
                    assert(s.skip(1)[i] == s[i + 1]);
                }
            }
            lemma_chunks_order_chains(a.skip(1), b.skip(1), c.skip(1));
        }
    }
}

proof fn lemma_chunks_order_flips(a: Seq<ChunkView>, b: Seq<ChunkView>)
    ensures
        chunks_order(a, b) == Order::Less <==> chunks_order(b, a) == Order::Greater,
        chunks_order(a, b) == Order::Equal <==> chunks_order(b, a) == Order::Equal,
    decreases a.len(),
{
    if a.len() > 0 && b.len() > 0 {
        lemma_chunks_order_flips(a.skip(1), b.skip(1));
    }
}

proof fn lemma_chunks_order_same(a: Seq<ChunkView>)
    ensures
        chunks_order(a, a) == Order::Equal,
    decreases a.len(),
{
    if a.len() > 0 {
        lemma_chunks_order_same(a.skip(1));
    }
}

/// The natural order is an order: a text equals itself, swapping two texts swaps
/// the answer, and the answers chain.
pub proof fn law_natural_order_is_an_order(a: Seq<char>, b: Seq<char>, c: Seq<char>)
    ensures
        natural_order(a, a) == Order::Equal,
        natural_order(a, b) == Order::Less <==> natural_order(b, a) == Order::Greater,
        natural_order(a, b) == Order::Equal <==> natural_order(b, a) == Order::Equal,
        natural_order(a, b) != Order::Greater && natural_order(b, c) != Order::Greater
            ==> natural_order(a, c) != Order::Greater,
{
    let x = chunks_of(lowercase(a));
    let y = chunks_of(lowercase(b));
    let z = chunks_of(lowercase(c));
    lemma_chunks_are_well(lowercase(a));
    lemma_chunks_are_well(lowercase(b));
    lemma_chunks_are_well(lowercase(c));
    lemma_chunks_order_same(x);
    lemma_chunks_order_flips(x, y);
    if natural_order(a, b) != Order::Greater && natural_order(b, c) != Order::Greater {
        lemma_chunks_order_chains(x, y, z);
    }
}

/// Case is ignored: texts that are the same in lower case compare alike, and so,
/// where lowering twice is lowering once, does a text that is lowered first. In
/// ASCII texts it always is.
pub proof fn law_natural_order_ignores_case(
    a: Seq<char>,
    b: Seq<char>,
    c: Seq<char>,
    d: Seq<char>,
)
    ensures
        lowercase(a) == lowercase(c) && lowercase(b) == lowercase(d) ==> natural_order(a, b)
            == natural_order(c, d),
        lowercase(lowercase(a)) == lowercase(a) && lowercase(lowercase(b)) == lowercase(b)
            ==> natural_order(lowercase(a), lowercase(b)) == natural_order(a, b),
        ascii_lowered(ascii_lowered(a)) == ascii_lowered(a),
{
    assert(ascii_lowered(ascii_lowered(a)) =~= ascii_lowered(a));
}

// ------------------------------------------------------- numbers in texts ----

/// A text of decimal digits.
pub open spec fn is_numeral(s: Seq<char>) -> bool {
    s.len() > 0 && forall|i: int| 0 <= i < s.len() ==> is_digit(#[trigger] s[i])
}

/// Whether a number that follows a text starts there: the text does not end with a
/// digit or a point.
pub open spec fn ends_apart(s: Seq<char>) -> bool {
    s.len() == 0 || (!is_digit(s.last()) && s.last() != '.')
}

/// Whether a number that precedes a text ends there.
pub open spec fn begins_apart(s: Seq<char>) -> bool {
    s.len() == 0 || (!is_digit(s[0]) && s[0] != '.')
}

/// How two numbers compare.
pub open spec fn size_order(d: nat, e: nat) -> Order {
    if d < e {
        Order::Less
    } else if d > e {
        Order::Greater
    } else {
        Order::Equal
    }
}

proof fn lemma_number_len(s: Seq<char>, t: Seq<char>)
    requires
        s.len() > 0,
        is_digit(s[0]),
        ends_apart(s),
    ensures
        number_len(s + t) == number_len(s),
        0 < number_len(s) < s.len(),
{
    let k = Class::Digit;
    let n = first_out(s, k);
    lemma_first_out(s, k);
    assert(s.last() == s[s.len() - 1]);
    assert(0 < n < s.len());
    assert forall|j: int| 0 <= j < n implies k.holds(#[trigger] (s + t)[j]) by {
        assert((s + t)[j] == s[j]);
    }
    assert((s + t)[n] == s[n]);
    lemma_first_out_is(s + t, k, n);
    if s[n] == '.' {
        let r = s.skip(n + 1);
        let m = first_out(r, k);
        lemma_first_out(r, k);
        assert(r.len() > 0);
        assert(r.last() == s.last());
        assert(m < r.len()) by {
            if m == r.len() {
                assert(k.holds(r[r.len() - 1]));
            }
        }
        let w = (s + t).skip(n + 1);
        assert(w =~= r + t);
        assert forall|j: int| 0 <= j < m implies k.holds(#[trigger] w[j]) by {
            assert(w[j] == r[j]);
        }
        assert(w[m] == r[m]);
        lemma_first_out_is(w, k, m);
    }
}

/// The chunks of two texts that stand apart are those of the one and then those of the
/// other.
proof fn lemma_chunks_apart(s: Seq<char>, t: Seq<char>)
    requires
        ends_apart(s),
    ensures
        chunks_of(s + t) == chunks_of(s) + chunks_of(t),
    decreases s.len(),
{
    if s.len() == 0 {
        assert(s + t =~= t);
        assert(chunks_of(s) + chunks_of(t) =~= chunks_of(t));
    } else {
        assert((s + t)[0] == s[0]);
        let n = if is_digit(s[0]) {
            lemma_number_len(s, t);
            number_len(s)
        } else {
            1
        };
        let r = s.skip(n);
        assert((s + t).skip(n) =~= r + t);
        assert((s + t).take(n) =~= s.take(n));
        if r.len() > 0 {
            assert(r.last() == s.last());
        }
        lemma_chunks_apart(r, t);
        assert(chunks_of(s + t) =~= chunks_of(s) + chunks_of(t));
    }
}

proof fn lemma_chunks_order_prefix(p: Seq<ChunkView>, a: Seq<ChunkView>, b: Seq<ChunkView>)
    ensures
        chunks_order(p + a, p + b) == chunks_order(a, b),
    decreases p.len(),
{
    if p.len() == 0 {
        assert(p + a =~= a);
        assert(p + b =~= b);
    } else {
        assert((p + a)[0] == p[0]);
        assert((p + b)[0] == p[0]);
        assert((p + a).skip(1) =~= p.skip(1) + a);
        assert((p + b).skip(1) =~= p.skip(1) + b);
        lemma_chunks_order_prefix(p.skip(1), a, b);
    }
}

/// A numeral at the start of a text is its first chunk, by the number it is.
proof fn lemma_numeral_chunk(ds: Seq<char>, post: Seq<char>) -> (b: nat)
    requires
        is_numeral(ds),
        begins_apart(post),
        digits_value(ds) < pow2(53),
    ensures
        b < Format::Double.infinity(),
        Format::Double.scaled(b) == digits_value(ds) * pow2(1074),
        chunks_of(ds + post) == seq![ChunkView::Number(b as u64)] + chunks_of(post),
        b < 0x8000_0000_0000_0000,
{
    let s = ds + post;
    let n = ds.len() as int;
    let d = digits_value(ds);
    let f = Format::Double;
    lemma2_to64();
    lemma2_to64_rest();
    let b = lemma_whole_numbers(d, 0);
    assert(d * pow2(0) * pow2(1074) == d * pow2(1074)) by (nonlinear_arith)
        requires
            pow2(0) == 1,
    ;
    assert(f.scaled(b) * 1 == d * pow2(1074)) by (nonlinear_arith)
        requires
            f.scaled(b) == d * pow2(1074),
    ;
    lemma_exact(f, b, d, 1);
    assert(s[0] == ds[0]);
    assert forall|j: int| 0 <= j < n implies Class::Digit.holds(#[trigger] s[j]) by {
        assert(s[j] == ds[j]);
    }
    if post.len() > 0 {
        assert(s[n] == post[0]);
    }
    lemma_first_out_is(s, Class::Digit, n);
    assert(number_len(s) == n);
    assert(s.take(n) =~= ds);
    assert(s.skip(n) =~= post);
    lemma_last_out(ds, Class::Only('.'));
    assert(!Class::Only('.').holds(ds[n - 1]));
    assert(strip_back(ds, Class::Only('.')) =~= ds);
    lemma_numeral_read(ds);
    assert(f.infinity() < 0x8000_0000_0000_0000);
    b
}

/// A numeral is read as the double that is nearest to it.
pub proof fn lemma_numeral_read(ds: Seq<char>)
    requires
        is_numeral(ds),
    ensures
        double_of(ds) == Some(Double { bits: Format::Double.nearest(digits_value(ds), 1) as u64 }),
{
    reveal_strlit("nan");
    reveal_strlit("inf");
    reveal_strlit("infinity");
    let d = digits_value(ds);
    assert(is_digit(ds[0]));
    assert(unsigned_part(ds) == ds);
    assert(!alike(ds, "nan"@) && !alike(ds, "inf"@) && !alike(ds, "infinity"@));
    assert forall|i: int| 0 <= i < ds.len() implies !Class::Exponent.holds(#[trigger] ds[i])
        && !Class::Only('.').holds(ds[i]) by {
        assert(is_digit(ds[i]));
    }
    lemma_first_in_is(ds, Class::Exponent, ds.len() as int);
    assert(ds.take(ds.len() as int) =~= ds);
    lemma_first_in_is(ds, Class::Only('.'), ds.len() as int);
    assert(ds + Seq::<char>::empty() =~= ds);
    assert(mantissa_of(ds) == Some((ds, 0int)));
    assert(pow10(0) == 1);
    assert(d * pow10(0) == d) by (nonlinear_arith)
        requires
            pow10(0) == 1,
    ;
    assert(numeral_of(ds) == Some(Numeral::Decimal { digits: d, exp: 0 }));
}

/// Numbers compare by their value: two texts that differ in one number only, in lower
/// case, are in the order of the two numbers, however many digits they have. Numbers
/// from two to the power of 53 on are compared as doubles and left out.
pub proof fn law_numbers_compare_by_value(
    a: Seq<char>,
    b: Seq<char>,
    pre: Seq<char>,
    ds: Seq<char>,
    es: Seq<char>,
    post: Seq<char>,
)
    requires
        lowercase(a) == pre + ds + post,
        lowercase(b) == pre + es + post,
        ends_apart(pre),
        is_numeral(ds),
        is_numeral(es),
        begins_apart(post),
        digits_value(ds) < pow2(53),
        digits_value(es) < pow2(53),
    ensures
        natural_order(a, b) == size_order(digits_value(ds), digits_value(es)),
{
    let d = digits_value(ds);
    let e = digits_value(es);
    let f = Format::Double;
    let x = lemma_numeral_chunk(ds, post);
    let y = lemma_numeral_chunk(es, post);
    let rest = chunks_of(post);
    lemma_chunks_apart(pre, ds + post);
    lemma_chunks_apart(pre, es + post);
    assert(pre + ds + post =~= pre + (ds + post));
    assert(pre + es + post =~= pre + (es + post));
    let p = chunks_of(ds + post);
    let q = chunks_of(es + post);
    lemma_chunks_order_prefix(chunks_of(pre), p, q);
    assert(p.skip(1) =~= rest);
    assert(q.skip(1) =~= rest);
    lemma_chunks_order_same(rest);
    let u = pow2(1074);
    lemma_pow2_pos(1074);
    if x < y {
        lemma_scaled_grows(f, x, y);
    } else if y < x {
        lemma_scaled_grows(f, y, x);
    }
    assert(d * u < e * u <==> d < e) by (nonlinear_arith)
        requires
            u > 0,
    ;
    assert(e * u < d * u <==> e < d) by (nonlinear_arith)
        requires
            u > 0,
    ;
}

/// Apart from numbers, texts compare by the first character in which they differ, a
/// text before its extensions, and a number before every letter.
pub proof fn law_texts_compare_by_character(
    a: Seq<char>,
    b: Seq<char>,
    pre: Seq<char>,
    c: char,
    x: Seq<char>,
    d: char,
    y: Seq<char>,
)
    requires
        lowercase(a) == pre + (seq![c] + x),
        ends_apart(pre),
    ensures
        lowercase(b) == pre + (seq![d] + y) && !is_digit(c) && !is_digit(d) && c < d ==> natural_order(
            a,
            b,
        ) == Order::Less && natural_order(b, a) == Order::Greater,
        lowercase(b) == pre + (seq![d] + y) && is_digit(c) && '9' < d ==> natural_order(a, b)
            == Order::Less && natural_order(b, a) == Order::Greater,
        lowercase(b) == pre ==> natural_order(b, a) == Order::Less && natural_order(a, b)
            == Order::Greater,
        lowercase(b) == lowercase(a) ==> natural_order(a, b) == Order::Equal,
{
    let s = seq![c] + x;
    let t = seq![d] + y;
    let none: Seq<char> = seq![];
    lemma_chunks_apart(pre, s);
    lemma_chunks_apart(pre, t);
    lemma_chunks_apart(pre, none);
    assert(pre + none =~= pre);
    let p = chunks_of(pre);
    lemma_chunks_order_prefix(p, chunks_of(s), chunks_of(t));
    lemma_chunks_order_prefix(p, chunks_of(none), chunks_of(s));
    lemma_chunks_order_flips(chunks_of(lowercase(a)), chunks_of(lowercase(b)));
    lemma_chunks_order_same(chunks_of(lowercase(a)));
    assert(s[0] == c && t[0] == d);
    assert(s.skip(1) =~= x);
    assert(t.skip(1) =~= y);
    lemma_first_chunk(s);
    lemma_first_chunk(t);
}

proof fn lemma_first_chunk(s: Seq<char>)
    requires
        s.len() > 0,
    ensures
        chunks_of(s).len() > 0,
        is_digit(s[0]) ==> chunks_of(s)[0] is Number,
        !is_digit(s[0]) ==> chunks_of(s)[0] == ChunkView::Other(s[0] as int),
{
    if is_digit(s[0]) {
        let k = Class::Digit;
        lemma_first_out(s, k);
        let n = first_out(s, k);
        if n < s.len() && s[n] == '.' {
            lemma_first_out(s.skip(n + 1), k);
        }
        assert(0 < number_len(s) <= s.len());
    }
}

// ------------------------------------------------------ decimals in texts ----

/// Digits, a point, and more digits.
pub open spec fn with_point(whole: Seq<char>, part: Seq<char>) -> Seq<char> {
    whole + "."@ + part
}

/// A decimal is read as the double that is nearest to it.
pub proof fn lemma_decimal_read(whole: Seq<char>, part: Seq<char>)
    requires
        is_numeral(whole),
        is_numeral(part),
    ensures
        double_of(with_point(whole, part)) == Some(
            Double {
                bits: Format::Double.nearest(digits_value(whole + part), pow10(part.len())) as u64,
            },
        ),
        Format::Double.nearest(digits_value(whole + part), pow10(part.len())) < 0x8000_0000_0000_0000,
{
    reveal_strlit("nan");
    reveal_strlit("inf");
    reveal_strlit("infinity");
    reveal_strlit(".");
    let s = with_point(whole, part);
    let digits = whole + part;
    let n = whole.len() as int;
    let f = Format::Double;
    assert(s[0] == whole[0]);
    assert(is_digit(whole[0]));
    assert(unsigned_part(s) == s);
    assert(!alike(s, "nan"@) && !alike(s, "inf"@) && !alike(s, "infinity"@));
    assert forall|i: int| 0 <= i < s.len() implies !Class::Exponent.holds(#[trigger] s[i]) by {
        if i < n {
            assert(s[i] == whole[i]);
        } else if i > n {
            assert(s[i] == part[i - n - 1]);
        }
    }
    lemma_first_in_is(s, Class::Exponent, s.len() as int);
    assert(s.take(s.len() as int) =~= s);
    assert forall|i: int| 0 <= i < n implies !Class::Only('.').holds(#[trigger] s[i]) by {
        assert(s[i] == whole[i]);
    }
    assert(s[n] == '.');
    lemma_first_in_is(s, Class::Only('.'), n);
    assert(s.take(n) =~= whole);
    assert(s.skip(n + 1) =~= part);
    assert(all_in(digits, Class::Digit)) by {
        assert forall|i: int| 0 <= i < digits.len() implies Class::Digit.holds(#[trigger] digits[i]) by {
            if i < n {
                assert(digits[i] == whole[i]);
            } else {
                assert(digits[i] == part[i - n]);
            }
        }
    }
    assert(mantissa_of(s) == Some((digits, part.len() as int)));
    assert(numeral_of(s) == Some(
        Numeral::Decimal { digits: digits_value(digits), exp: -(part.len() as int) },
    ));
    lemma_nearest_is(f, digits_value(digits), pow10(part.len()));
    lemma2_to64();
    lemma2_to64_rest();
    assert(f.infinity() < 0x8000_0000_0000_0000);
}

/// A decimal at the start of a text is its first chunk.
proof fn lemma_decimal_chunk(whole: Seq<char>, part: Seq<char>, post: Seq<char>)
    requires
        is_numeral(whole),
        is_numeral(part),
        post.len() == 0 || !is_digit(post[0]),
    ensures
        chunks_of(with_point(whole, part) + post) == seq![
            ChunkView::Number(
                Format::Double.nearest(digits_value(whole + part), pow10(part.len())) as u64,
            ),
        ] + chunks_of(post),
{
    reveal_strlit(".");
    let w = with_point(whole, part);
    let s = w + post;
    let n = whole.len() as int;
    let m = part.len() as int;
    assert(s[0] == whole[0]);
    assert forall|j: int| 0 <= j < n implies Class::Digit.holds(#[trigger] s[j]) by {
        assert(s[j] == whole[j]);
    }
    assert(s[n] == '.');
    lemma_first_out_is(s, Class::Digit, n);
    let r = s.skip(n + 1);
    assert(r =~= part + post);
    assert forall|j: int| 0 <= j < m implies Class::Digit.holds(#[trigger] r[j]) by {
        assert(r[j] == part[j]);
    }
    if post.len() > 0 {
        assert(r[m] == post[0]);
    }
    lemma_first_out_is(r, Class::Digit, m);
    assert(number_len(s) == n + 1 + m);
    assert(s.take(n + 1 + m) =~= w);
    assert(s.skip(n + 1 + m) =~= post);
    let k = Class::Only('.');
    lemma_last_out(w, k);
    assert(w[w.len() - 1] == part[m - 1]);
    assert(!k.holds(w[w.len() - 1]));
    assert(strip_back(w, k) =~= w);
    lemma_decimal_read(whole, part);
}

/// Numbers with a fraction compare by their value: where the smaller is at most some
/// multiple of a power of a half and the larger at least the next, they are in that
/// order, and where one is at most the other, they are never the other way round.
pub proof fn law_fractions_compare_by_value(
    a: Seq<char>,
    b: Seq<char>,
    pre: Seq<char>,
    ds: Seq<char>,
    fs: Seq<char>,
    es: Seq<char>,
    gs: Seq<char>,
    post: Seq<char>,
    h: nat,
    j: nat,
)
    requires
        lowercase(a) == pre + with_point(ds, fs) + post,
        lowercase(b) == pre + with_point(es, gs) + post,
        ends_apart(pre),
        is_numeral(ds),
        is_numeral(fs),
        is_numeral(es),
        is_numeral(gs),
        post.len() == 0 || !is_digit(post[0]),
        h + 1 < pow2(53),
        j <= 1000,
    ensures
        ({
            let x = digits_value(ds + fs);
            let y = digits_value(es + gs);
            let p = pow10(fs.len());
            let q = pow10(gs.len());
            &&& x * q <= y * p ==> natural_order(a, b) != Order::Greater
            &&& x * q == y * p ==> natural_order(a, b) == Order::Equal
            &&& x * pow2(j) <= h * p && y * pow2(j) >= (h + 1) * q ==> natural_order(a, b)
                == Order::Less
        }),
{
    let f = Format::Double;
    let x = digits_value(ds + fs);
    let y = digits_value(es + gs);
    let p = pow10(fs.len());
    let q = pow10(gs.len());
    lemma_pow10_pos(fs.len());
    lemma_pow10_pos(gs.len());
    lemma_pow2_pos(j);
    let u = f.nearest(x, p);
    let v = f.nearest(y, q);
    lemma_decimal_chunk(ds, fs, post);
    lemma_decimal_chunk(es, gs, post);
    lemma_decimal_read(ds, fs);
    lemma_decimal_read(es, gs);
    let s = with_point(ds, fs) + post;
    let t = with_point(es, gs) + post;
    let rest = chunks_of(post);
    lemma_chunks_apart(pre, s);
    lemma_chunks_apart(pre, t);
    assert(pre + with_point(ds, fs) + post =~= pre + s);
    assert(pre + with_point(es, gs) + post =~= pre + t);
    lemma_chunks_order_prefix(chunks_of(pre), chunks_of(s), chunks_of(t));
    assert(chunks_of(s).skip(1) =~= rest);
    assert(chunks_of(t).skip(1) =~= rest);
    lemma_chunks_order_same(rest);
    if x * q <= y * p {
        lemma_nearest_grows(f, x, p, y, q);
    }
    if y * p <= x * q {
        lemma_nearest_grows(f, y, q, x, p);
    }
    if x * pow2(j) <= h * p && y * pow2(j) >= (h + 1) * q {
        let low = lemma_dyadic(h, j);
        let high = lemma_dyadic(h + 1, j);
        lemma_nearest_grows(f, x, p, h, pow2(j));
        lemma_nearest_grows(f, h + 1, pow2(j), y, q);
        let w = pow2((1074 - j) as nat);
        lemma_pow2_pos((1074 - j) as nat);
        assert(h * w < (h + 1) * w) by (nonlinear_arith)
            requires
                w > 0,
        ;
        if high <= low {
            if high < low {
                lemma_scaled_grows(f, high, low);
            }
        }
        assert(low < high);
    }
}

} // verus!
