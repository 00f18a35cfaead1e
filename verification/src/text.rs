//! Text as sequences of characters: the scanning, splitting and trimming that
//! every parser is made of, each operation stated over `Seq<char>`.

use vstd::prelude::*;
use vstd::slice::slice_subrange;

verus! {

/// `String::push` appends one character.
pub assume_specification[ String::push ](s: &mut String, c: char)
    ensures
        final(s)@ == old(s)@.push(c),
;

// ------------------------------------------------------------ characters ----

/// The characters with the Unicode property `White_Space`.
pub open spec fn is_space(c: char) -> bool {
    let u = c as u32;
    ||| 0x9 <= u <= 0xd
    ||| u == 0x20
    ||| u == 0x85
    ||| u == 0xa0
    ||| u == 0x1680
    ||| 0x2000 <= u <= 0x200a
    ||| u == 0x2028
    ||| u == 0x2029
    ||| u == 0x202f
    ||| u == 0x205f
    ||| u == 0x3000
}

pub open spec fn is_digit(c: char) -> bool {
    '0' <= c <= '9'
}

pub open spec fn is_alpha(c: char) -> bool {
    'a' <= c <= 'z' || 'A' <= c <= 'Z'
}

pub open spec fn is_alnum(c: char) -> bool {
    is_digit(c) || is_alpha(c)
}

/// A set of characters to scan for.
#[derive(Clone, Copy)]
pub enum Class {
    /// One character.
    Only(char),
    /// White space.
    Space,
    /// An ASCII digit.
    Digit,
    /// An ASCII letter.
    Alpha,
    /// An ASCII letter or digit.
    Alnum,
    /// A letter, digit or `_`: what a shell variable is named with.
    Name,
    /// A letter, digit, `+` or `-`: what a time zone is written with.
    Zone,
    /// A letter, digit, `*`, `/`, `,` or `-`: what a cron field is written with.
    Field,
    /// `*` or a digit: what every cron field contains.
    Star,
    /// `●` or `*`: the bullet before a unit name.
    Bullet,
    /// `e` or `E`: what introduces a decimal exponent.
    Exponent,
}

impl Class {
    pub open spec fn holds(self, c: char) -> bool {
        match self {
            Class::Only(x) => c == x,
            Class::Space => is_space(c),
            Class::Digit => is_digit(c),
            Class::Alpha => is_alpha(c),
            Class::Alnum => is_alnum(c),
            Class::Name => is_alnum(c) || c == '_',
            Class::Zone => is_alnum(c) || c == '+' || c == '-',
            Class::Field => is_alnum(c) || c == '*' || c == '/' || c == ',' || c == '-',
            Class::Star => is_digit(c) || c == '*',
            Class::Bullet => c == '\u{25cf}' || c == '*',
            Class::Exponent => c == 'e' || c == 'E',
        }
    }

    pub fn has(self, c: char) -> (yes: bool)
        ensures
            yes == self.holds(c),
    {
        let digit = '0' <= c && c <= '9';
        let alpha = ('a' <= c && c <= 'z') || ('A' <= c && c <= 'Z');
        match self {
            Class::Only(x) => c == x,
            Class::Space => space(c),
            Class::Digit => digit,
            Class::Alpha => alpha,
            Class::Alnum => digit || alpha,
            Class::Name => digit || alpha || c == '_',
            Class::Zone => digit || alpha || c == '+' || c == '-',
            Class::Field => digit || alpha || c == '*' || c == '/' || c == ',' || c == '-',
            Class::Star => digit || c == '*',
            Class::Bullet => c == '\u{25cf}' || c == '*',
            Class::Exponent => c == 'e' || c == 'E',
        }
    }
}

/// Whether `c` is white space.
pub fn space(c: char) -> (yes: bool)
    ensures
        yes == is_space(c),
{
    let u: u32 = c as u32;
    (0x9 <= u && u <= 0xd) || u == 0x20 || u == 0x85 || u == 0xa0 || u == 0x1680 || (0x2000 <= u
        && u <= 0x200a) || u == 0x2028 || u == 0x2029 || u == 0x202f || u == 0x205f || u == 0x3000
}

// ----------------------------------------------------------- conversions ----

/// The views of a sequence of values.
pub open spec fn views<T: View>(s: Seq<T>) -> Seq<T::V> {
    Seq::new(s.len(), |i: int| s[i]@)
}

/// The characters of a string.
pub fn chars_of(s: &str) -> (r: Vec<char>)
    ensures
        r@ == s@,
{
    let mut r: Vec<char> = Vec::new();
    for c in it: s.chars()
        invariant
            it.seq() == s@,
            r@ == s@.take(it.index() as int),
    {
        r.push(c);
        assert(r@ =~= s@.take(it.index() + 1));
    }
    assert(s@.take(s@.len() as int) =~= s@);
    r
}

/// The string made of some characters.
pub fn string_of(s: &[char]) -> (r: String)
    ensures
        r@ == s@,
{
    let mut r = String::new();
    let mut i: usize = 0;
    while i < s.len()
        invariant
            i <= s.len(),
            r@ == s@.take(i as int),
        decreases s.len() - i,
    {
        r.push(s[i]);
        assert(s@.take(i + 1) =~= s@.take(i as int).push(s@[i as int]));
        i += 1;
    }
    assert(s@.take(s@.len() as int) =~= s@);
    r
}

// -------------------------------------------------------------- scanning ----

/// The position of the first character in `k`, or the length if there is none.
pub open spec fn first_in(s: Seq<char>, k: Class) -> int
    decreases s.len(),
{
    if s.len() == 0 {
        0
    } else if k.holds(s[0]) {
        0
    } else {
        1 + first_in(s.skip(1), k)
    }
}

/// The position of the first character outside `k`, or the length if there is
/// none.
pub open spec fn first_out(s: Seq<char>, k: Class) -> int
    decreases s.len(),
{
    if s.len() == 0 {
        0
    } else if !k.holds(s[0]) {
        0
    } else {
        1 + first_out(s.skip(1), k)
    }
}

/// The position of the last character in `k`, or -1 if there is none.
pub open spec fn last_in(s: Seq<char>, k: Class) -> int
    decreases s.len(),
{
    if s.len() == 0 {
        -1
    } else if k.holds(s.last()) {
        s.len() - 1
    } else {
        last_in(s.drop_last(), k)
    }
}

/// The position of the last character outside `k`, or -1 if there is none.
pub open spec fn last_out(s: Seq<char>, k: Class) -> int
    decreases s.len(),
{
    if s.len() == 0 {
        -1
    } else if !k.holds(s.last()) {
        s.len() - 1
    } else {
        last_out(s.drop_last(), k)
    }
}

pub proof fn lemma_first_in(s: Seq<char>, k: Class)
    ensures
        0 <= first_in(s, k) <= s.len(),
        first_in(s, k) < s.len() ==> k.holds(s[first_in(s, k)]),
        forall|j: int| 0 <= j < first_in(s, k) ==> !k.holds(#[trigger] s[j]),
    decreases s.len(),
{
    if s.len() > 0 && !k.holds(s[0]) {
        lemma_first_in(s.skip(1), k);
        assert forall|j: int| 0 <= j < first_in(s, k) implies !k.holds(#[trigger] s[j]) by {
            if j > 0 {
                assert(s.skip(1)[j - 1] == s[j]);
            }
        }
    }
}

pub proof fn lemma_first_out(s: Seq<char>, k: Class)
    ensures
        0 <= first_out(s, k) <= s.len(),
        first_out(s, k) < s.len() ==> !k.holds(s[first_out(s, k)]),
        forall|j: int| 0 <= j < first_out(s, k) ==> k.holds(#[trigger] s[j]),
    decreases s.len(),
{
    if s.len() > 0 && k.holds(s[0]) {
        lemma_first_out(s.skip(1), k);
        assert forall|j: int| 0 <= j < first_out(s, k) implies k.holds(#[trigger] s[j]) by {
            if j > 0 {
                assert(s.skip(1)[j - 1] == s[j]);
            }
        }
    }
}

pub proof fn lemma_last_in(s: Seq<char>, k: Class)
    ensures
        -1 <= last_in(s, k) < s.len(),
        last_in(s, k) >= 0 ==> k.holds(s[last_in(s, k)]),
        forall|j: int| last_in(s, k) < j < s.len() ==> !k.holds(#[trigger] s[j]),
    decreases s.len(),
{
    if s.len() > 0 && !k.holds(s.last()) {
        lemma_last_in(s.drop_last(), k);
        assert forall|j: int| last_in(s, k) < j < s.len() implies !k.holds(#[trigger] s[j]) by {
            if j < s.len() - 1 {
                assert(s.drop_last()[j] == s[j]);
            }
        }
    }
}

pub proof fn lemma_last_out(s: Seq<char>, k: Class)
    ensures
        -1 <= last_out(s, k) < s.len(),
        last_out(s, k) >= 0 ==> !k.holds(s[last_out(s, k)]),
        forall|j: int| last_out(s, k) < j < s.len() ==> k.holds(#[trigger] s[j]),
    decreases s.len(),
{
    if s.len() > 0 && k.holds(s.last()) {
        lemma_last_out(s.drop_last(), k);
        assert forall|j: int| last_out(s, k) < j < s.len() implies k.holds(#[trigger] s[j]) by {
            if j < s.len() - 1 {
                assert(s.drop_last()[j] == s[j]);
            }
        }
    }
}

/// Finds the first character in `k`; the length when there is none.
pub fn find_in(s: &[char], k: Class) -> (r: usize)
    ensures
        r == first_in(s@, k),
        r <= s.len(),
        r < s.len() ==> k.holds(s@[r as int]),
{
    let mut i: usize = 0;
    assert(s@.skip(0) =~= s@);
    while i < s.len() && !k.has(s[i])
        invariant
            i <= s.len(),
            first_in(s@, k) == i + first_in(s@.skip(i as int), k),
        decreases s.len() - i,
    {
        assert(s@.skip(i as int).skip(1) =~= s@.skip(i + 1));
        i += 1;
    }
    i
}

/// Finds the first character outside `k`; the length when there is none.
pub fn find_out(s: &[char], k: Class) -> (r: usize)
    ensures
        r == first_out(s@, k),
        r <= s.len(),
        r < s.len() ==> !k.holds(s@[r as int]),
{
    let mut i: usize = 0;
    assert(s@.skip(0) =~= s@);
    while i < s.len() && k.has(s[i])
        invariant
            i <= s.len(),
            first_out(s@, k) == i + first_out(s@.skip(i as int), k),
        decreases s.len() - i,
    {
        assert(s@.skip(i as int).skip(1) =~= s@.skip(i + 1));
        i += 1;
    }
    i
}

/// One past the last character in `k`; zero when there is none.
pub fn after_last_in(s: &[char], k: Class) -> (r: usize)
    ensures
        r == last_in(s@, k) + 1,
        r <= s.len(),
{
    let mut n: usize = s.len();
    assert(s@.take(n as int) =~= s@);
    while n > 0 && !k.has(s[n - 1])
        invariant
            n <= s.len(),
            last_in(s@, k) == last_in(s@.take(n as int), k),
        decreases n,
    {
        assert(s@.take(n as int).drop_last() =~= s@.take(n - 1));
        n -= 1;
    }
    n
}

/// One past the last character outside `k`; zero when there is none.
pub fn after_last_out(s: &[char], k: Class) -> (r: usize)
    ensures
        r == last_out(s@, k) + 1,
        r <= s.len(),
{
    let mut n: usize = s.len();
    assert(s@.take(n as int) =~= s@);
    while n > 0 && k.has(s[n - 1])
        invariant
            n <= s.len(),
            last_out(s@, k) == last_out(s@.take(n as int), k),
        decreases n,
    {
        assert(s@.take(n as int).drop_last() =~= s@.take(n - 1));
        n -= 1;
    }
    n
}

/// Whether every character of `s` is in `k`.
pub open spec fn all_in(s: Seq<char>, k: Class) -> bool {
    forall|i: int| 0 <= i < s.len() ==> k.holds(#[trigger] s[i])
}

/// Whether some character of `s` is in `k`.
pub open spec fn any_in(s: Seq<char>, k: Class) -> bool {
    exists|i: int| 0 <= i < s.len() && k.holds(#[trigger] s[i])
}

pub fn every_in(s: &[char], k: Class) -> (yes: bool)
    ensures
        yes == all_in(s@, k),
{
    let n = find_out(s, k);
    proof {
        lemma_first_out(s@, k);
    }
    n == s.len()
}

pub fn some_in(s: &[char], k: Class) -> (yes: bool)
    ensures
        yes == any_in(s@, k),
{
    let n = find_in(s, k);
    proof {
        lemma_first_in(s@, k);
    }
    n < s.len()
}

// -------------------------------------------------------------- trimming ----

/// `s` without its leading characters in `k`.
pub open spec fn strip_front(s: Seq<char>, k: Class) -> Seq<char> {
    s.skip(first_out(s, k))
}

/// `s` without its trailing characters in `k`.
pub open spec fn strip_back(s: Seq<char>, k: Class) -> Seq<char> {
    s.take(last_out(s, k) + 1)
}

/// `s` without leading and trailing white space.
pub open spec fn trimmed(s: Seq<char>) -> Seq<char> {
    strip_back(strip_front(s, Class::Space), Class::Space)
}

pub fn trim_front<'a>(s: &'a [char], k: Class) -> (r: &'a [char])
    ensures
        r@ == strip_front(s@, k),
        r@.len() <= s@.len(),
{
    let n = find_out(s, k);
    slice_subrange(s, n, s.len())
}

pub fn trim_back<'a>(s: &'a [char], k: Class) -> (r: &'a [char])
    ensures
        r@ == strip_back(s@, k),
        r@.len() <= s@.len(),
{
    let n = after_last_out(s, k);
    slice_subrange(s, 0, n)
}

pub fn trim<'a>(s: &'a [char]) -> (r: &'a [char])
    ensures
        r@ == trimmed(s@),
        r@.len() <= s@.len(),
{
    trim_back(trim_front(s, Class::Space), Class::Space)
}

// ------------------------------------------------------------- comparing ----

pub fn same(a: &[char], b: &[char]) -> (yes: bool)
    ensures
        yes == (a@ == b@),
{
    if a.len() != b.len() {
        return false;
    }
    let mut i: usize = 0;
    while i < a.len()
        invariant
            i <= a.len(),
            a.len() == b.len(),
            forall|j: int| 0 <= j < i ==> a@[j] == b@[j],
        decreases a.len() - i,
    {
        if a[i] != b[i] {
            return false;
        }
        i += 1;
    }
    assert(a@ =~= b@);
    true
}

/// Whether `s` spells the string `t`.
pub fn spells(s: &[char], t: &str) -> (yes: bool)
    ensures
        yes == (s@ == t@),
{
    let t = chars_of(t);
    same(s, t.as_slice())
}

/// Whether two strings are equal.
pub fn eq(s: &str, t: &str) -> (yes: bool)
    ensures
        yes == (s@ == t@),
{
    let s = chars_of(s);
    spells(s.as_slice(), t)
}

pub fn begins(s: &[char], p: &[char]) -> (yes: bool)
    ensures
        yes == p@.is_prefix_of(s@),
{
    if p.len() > s.len() {
        return false;
    }
    let head = slice_subrange(s, 0, p.len());
    same(head, p)
}

pub fn begins_with(s: &[char], p: &str) -> (yes: bool)
    ensures
        yes == p@.is_prefix_of(s@),
{
    let p = chars_of(p);
    begins(s, p.as_slice())
}

pub fn ends_with(s: &[char], p: &str) -> (yes: bool)
    ensures
        yes == p@.is_suffix_of(s@),
{
    let p = chars_of(p);
    if p.len() > s.len() {
        return false;
    }
    let tail = slice_subrange(s, s.len() - p.len(), s.len());
    same(tail, p.as_slice())
}

/// What follows the prefix `p`, when `s` has it.
pub open spec fn after_prefix(s: Seq<char>, p: Seq<char>) -> Option<Seq<char>> {
    if p.is_prefix_of(s) {
        Some(s.skip(p.len() as int))
    } else {
        None
    }
}

pub fn strip_prefix<'a>(s: &'a [char], p: &str) -> (r: Option<&'a [char]>)
    ensures
        match r {
            Some(t) => after_prefix(s@, p@) == Some(t@),
            None => after_prefix(s@, p@) is None,
        },
{
    let p = chars_of(p);
    if begins(s, p.as_slice()) {
        Some(slice_subrange(s, p.len(), s.len()))
    } else {
        None
    }
}

/// The result of a three-way comparison.
#[derive(Clone, Copy, PartialEq, Eq, Structural)]
pub enum Order {
    Less,
    Equal,
    Greater,
}

/// Two texts compared character by character.
pub open spec fn text_order(a: Seq<char>, b: Seq<char>) -> Order
    decreases a.len(),
{
    if a.len() == 0 {
        if b.len() == 0 {
            Order::Equal
        } else {
            Order::Less
        }
    } else if b.len() == 0 {
        Order::Greater
    } else if a[0] < b[0] {
        Order::Less
    } else if a[0] > b[0] {
        Order::Greater
    } else {
        text_order(a.skip(1), b.skip(1))
    }
}

pub fn order_chars(a: &[char], b: &[char]) -> (r: Order)
    ensures
        r == text_order(a@, b@),
{
    let mut i: usize = 0;
    assert(a@.skip(0) =~= a@);
    assert(b@.skip(0) =~= b@);
    while i < a.len() && i < b.len()
        invariant
            i <= a.len(),
            i <= b.len(),
            text_order(a@, b@) == text_order(a@.skip(i as int), b@.skip(i as int)),
        decreases a.len() - i,
    {
        if a[i] < b[i] {
            return Order::Less;
        }
        if a[i] > b[i] {
            return Order::Greater;
        }
        assert(a@.skip(i as int).skip(1) =~= a@.skip(i + 1));
        assert(b@.skip(i as int).skip(1) =~= b@.skip(i + 1));
        i += 1;
    }
    if i < a.len() {
        Order::Greater
    } else if i < b.len() {
        Order::Less
    } else {
        Order::Equal
    }
}

pub fn order_text(a: &str, b: &str) -> (r: Order)
    ensures
        r == text_order(a@, b@),
{
    let a = chars_of(a);
    let b = chars_of(b);
    order_chars(a.as_slice(), b.as_slice())
}

/// Comparing a text with itself gives equality, and only then.
pub proof fn lemma_text_order_equal(a: Seq<char>, b: Seq<char>)
    ensures
        text_order(a, b) == Order::Equal <==> a == b,
    decreases a.len(),
{
    if a.len() > 0 && b.len() > 0 && a[0] == b[0] {
        lemma_text_order_equal(a.skip(1), b.skip(1));
        if a.skip(1) == b.skip(1) {
            assert forall|i: int| 0 <= i < a.len() implies a[i] == b[i] by {
                if i > 0 {
                    assert(a.skip(1)[i - 1] == b.skip(1)[i - 1]);
                }
            }
            assert(a.len() == a.skip(1).len() + 1);
            assert(a =~= b);
        }
    } else if a.len() == 0 && b.len() == 0 {
        assert(a =~= b);
    }
}

/// Exchanging the two texts exchanges the outcome.
pub proof fn lemma_text_order_flip(a: Seq<char>, b: Seq<char>)
    ensures
        text_order(a, b) == Order::Less <==> text_order(b, a) == Order::Greater,
        text_order(a, b) == Order::Equal <==> text_order(b, a) == Order::Equal,
    decreases a.len(),
{
    if a.len() > 0 && b.len() > 0 && a[0] == b[0] {
        lemma_text_order_flip(a.skip(1), b.skip(1));
    }
}

/// The order of texts is transitive.
pub proof fn lemma_text_order_transitive(a: Seq<char>, b: Seq<char>, c: Seq<char>)
    requires
        text_order(a, b) != Order::Greater,
        text_order(b, c) != Order::Greater,
    ensures
        text_order(a, c) != Order::Greater,
        text_order(a, b) == Order::Less || text_order(b, c) == Order::Less ==> text_order(a, c)
            == Order::Less,
    decreases a.len(),
{
    if a.len() > 0 && b.len() > 0 && c.len() > 0 && a[0] == b[0] && b[0] == c[0] {
        lemma_text_order_transitive(a.skip(1), b.skip(1), c.skip(1));
    }
}

// ------------------------------------------------------------- searching ----

/// The first position at which `p` occurs in `s`.
pub open spec fn find_text(s: Seq<char>, p: Seq<char>) -> Option<int>
    decreases s.len(),
{
    if p.is_prefix_of(s) {
        Some(0)
    } else if s.len() == 0 {
        None
    } else {
        match find_text(s.skip(1), p) {
            Some(i) => Some(i + 1),
            None => None,
        }
    }
}

/// Whether `p` occurs in `s`.
pub open spec fn contains_text(s: Seq<char>, p: Seq<char>) -> bool {
    find_text(s, p) is Some
}

pub fn locate(s: &[char], p: &[char]) -> (r: Option<usize>)
    ensures
        match r {
            Some(i) => find_text(s@, p@) == Some(i as int) && i + p@.len() <= s@.len(),
            None => find_text(s@, p@) is None,
        },
{
    let mut i: usize = 0;
    assert(s@.skip(0) =~= s@);
    loop
        invariant
            i <= s.len(),
            match find_text(s@.skip(i as int), p@) {
                Some(j) => find_text(s@, p@) == Some(i + j),
                None => find_text(s@, p@) is None,
            },
        decreases s.len() - i,
    {
        let rest = slice_subrange(s, i, s.len());
        assert(rest@ =~= s@.skip(i as int));
        if begins(rest, p) {
            return Some(i);
        }
        if i == s.len() {
            return None;
        }
        assert(s@.skip(i as int).skip(1) =~= s@.skip(i + 1));
        i += 1;
    }
}

pub fn holds_text(s: &[char], p: &str) -> (yes: bool)
    ensures
        yes == contains_text(s@, p@),
{
    let p = chars_of(p);
    locate(s, p.as_slice()).is_some()
}

/// `s` occurs in `t` exactly when it stands at some position of `t`.
pub proof fn lemma_contains_text(s: Seq<char>, p: Seq<char>)
    ensures
        contains_text(s, p) <==> exists|i: int|
            0 <= i <= s.len() && p.is_prefix_of(#[trigger] s.skip(i)),
    decreases s.len(),
{
    assert(s.skip(0) =~= s);
    if p.is_prefix_of(s) {
        assert(p.is_prefix_of(s.skip(0)));
    } else if s.len() == 0 {
        assert forall|i: int| 0 <= i <= s.len() implies !p.is_prefix_of(#[trigger] s.skip(i)) by {
            assert(i == 0);
        }
    } else {
        lemma_contains_text(s.skip(1), p);
        if contains_text(s, p) {
            let j = choose|j: int|
                0 <= j <= s.skip(1).len() && p.is_prefix_of(#[trigger] s.skip(1).skip(j));
            assert(s.skip(1).skip(j) =~= s.skip(j + 1));
            assert(p.is_prefix_of(s.skip(j + 1)));
        } else {
            assert forall|i: int| 0 <= i <= s.len() implies !p.is_prefix_of(
                #[trigger] s.skip(i),
            ) by {
                if i > 0 {
                    assert(s.skip(1).skip(i - 1) =~= s.skip(i));
                }
            }
        }
    }
}

/// What a text contains, it still contains when more follows.
pub proof fn lemma_holds_then(a: Seq<char>, b: Seq<char>, p: Seq<char>)
    requires
        contains_text(a, p),
    ensures
        contains_text(a + b, p),
{
    lemma_contains_text(a, p);
    lemma_contains_text(a + b, p);
    let i = choose|i: int| 0 <= i <= a.len() && p.is_prefix_of(#[trigger] a.skip(i));
    assert((a + b).skip(i).take(p.len() as int) =~= a.skip(i).take(p.len() as int));
    assert(p.is_prefix_of((a + b).skip(i)));
}

/// A text contains what it ends with.
pub proof fn lemma_holds_last(a: Seq<char>, p: Seq<char>)
    ensures
        contains_text(a + p, p),
{
    lemma_contains_text(a + p, p);
    assert((a + p).skip(a.len() as int) =~= p);
}

/// What a part of a text contains, the text contains.
pub proof fn lemma_holds_through(s: Seq<char>, p: Seq<char>, q: Seq<char>)
    requires
        contains_text(s, p),
        contains_text(p, q),
    ensures
        contains_text(s, q),
{
    lemma_contains_text(s, p);
    lemma_contains_text(p, q);
    lemma_contains_text(s, q);
    let i = choose|i: int| 0 <= i <= s.len() && p.is_prefix_of(#[trigger] s.skip(i));
    let j = choose|j: int| 0 <= j <= p.len() && q.is_prefix_of(#[trigger] p.skip(j));
    assert(s.skip(i + j).take(q.len() as int) =~= p.skip(j).take(q.len() as int)) by {
        assert forall|n: int| 0 <= n < q.len() implies s.skip(i + j)[n] == p.skip(j)[n] by {
            assert(s.skip(i)[j + n] == p[j + n]);
        }
    }
    assert(q.is_prefix_of(s.skip(i + j)));
}

// ------------------------------------------------------------- splitting ----

/// The text before and after the first `c`.
pub open spec fn cut_first(s: Seq<char>, c: char) -> Option<(Seq<char>, Seq<char>)> {
    let i = first_in(s, Class::Only(c));
    if i < s.len() {
        Some((s.take(i), s.skip(i + 1)))
    } else {
        None
    }
}

/// The text before and after the last `c`.
pub open spec fn cut_last(s: Seq<char>, c: char) -> Option<(Seq<char>, Seq<char>)> {
    let i = last_in(s, Class::Only(c));
    if i >= 0 {
        Some((s.take(i), s.skip(i + 1)))
    } else {
        None
    }
}

pub fn split_once<'a>(s: &'a [char], c: char) -> (r: Option<(&'a [char], &'a [char])>)
    ensures
        match r {
            Some((a, b)) => cut_first(s@, c) == Some((a@, b@)) && a@.len() + b@.len() + 1
                == s@.len(),
            None => cut_first(s@, c) is None,
        },
{
    let i = find_in(s, Class::Only(c));
    if i < s.len() {
        Some((slice_subrange(s, 0, i), slice_subrange(s, i + 1, s.len())))
    } else {
        None
    }
}

pub fn rsplit_once<'a>(s: &'a [char], c: char) -> (r: Option<(&'a [char], &'a [char])>)
    ensures
        match r {
            Some((a, b)) => cut_last(s@, c) == Some((a@, b@)),
            None => cut_last(s@, c) is None,
        },
{
    let n = after_last_in(s, Class::Only(c));
    if n > 0 {
        Some((slice_subrange(s, 0, n - 1), slice_subrange(s, n, s.len())))
    } else {
        None
    }
}

/// The pieces of `s` between the occurrences of `c`.
pub open spec fn pieces(s: Seq<char>, c: char) -> Seq<Seq<char>>
    decreases s.len(),
{
    let i = first_in(s, Class::Only(c));
    if 0 <= i < s.len() {
        seq![s.take(i)] + pieces(s.skip(i + 1), c)
    } else {
        seq![s]
    }
}

pub fn split<'a>(s: &'a [char], c: char) -> (r: Vec<&'a [char]>)
    ensures
        views(r@) == pieces(s@, c),
        r@.len() >= 1,
{
    let mut out: Vec<&'a [char]> = Vec::new();
    let mut rest: &'a [char] = s;
    assert(views(out@) + pieces(rest@, c) =~= pieces(s@, c));
    loop
        invariant
            views(out@) + pieces(rest@, c) == pieces(s@, c),
        decreases rest@.len(),
    {
        let i = find_in(rest, Class::Only(c));
        let ghost before = out@;
        if i < rest.len() {
            let head = slice_subrange(rest, 0, i);
            let tail = slice_subrange(rest, i + 1, rest.len());
            out.push(head);
            assert(tail@ =~= rest@.skip(i + 1));
            assert(head@ =~= rest@.take(i as int));
            assert(views(out@) =~= views(before).push(head@));
            assert(views(out@) + pieces(tail@, c) =~= views(before) + (seq![head@] + pieces(
                tail@,
                c,
            )));
            rest = tail;
        } else {
            out.push(rest);
            assert(views(out@) =~= views(before) + seq![rest@]);
            return out;
        }
    }
}

/// A line without the carriage return that ended it.
pub open spec fn without_cr(s: Seq<char>) -> Seq<char> {
    if s.len() > 0 && s.last() == '\r' {
        s.drop_last()
    } else {
        s
    }
}

/// The lines of a text: what stands before each `\n` or `\r\n`, and what
/// follows the last one if anything does.
pub open spec fn lines_of(s: Seq<char>) -> Seq<Seq<char>>
    decreases s.len(),
{
    if s.len() == 0 {
        seq![]
    } else {
        let i = first_in(s, Class::Only('\n'));
        if 0 <= i < s.len() {
            seq![without_cr(s.take(i))] + lines_of(s.skip(i + 1))
        } else {
            seq![s]
        }
    }
}

pub fn lines<'a>(s: &'a [char]) -> (r: Vec<&'a [char]>)
    ensures
        views(r@) == lines_of(s@),
{
    let mut out: Vec<&'a [char]> = Vec::new();
    let mut rest: &'a [char] = s;
    assert(views(out@) + lines_of(rest@) =~= lines_of(s@));
    while rest.len() > 0
        invariant
            views(out@) + lines_of(rest@) == lines_of(s@),
        decreases rest@.len(),
    {
        let i = find_in(rest, Class::Only('\n'));
        let ghost before = out@;
        if i < rest.len() {
            let mut head = slice_subrange(rest, 0, i);
            assert(head@ =~= rest@.take(i as int));
            if i > 0 && rest[i - 1] == '\r' {
                head = slice_subrange(rest, 0, i - 1);
                assert(head@ =~= rest@.take(i as int).drop_last());
            }
            let tail = slice_subrange(rest, i + 1, rest.len());
            out.push(head);
            assert(tail@ =~= rest@.skip(i + 1));
            assert(head@ == without_cr(rest@.take(i as int)));
            assert(views(out@) =~= views(before).push(head@));
            assert(views(out@) + lines_of(tail@) =~= views(before) + (seq![head@] + lines_of(
                tail@,
            )));
            rest = tail;
        } else {
            let tail = slice_subrange(rest, i, rest.len());
            out.push(rest);
            assert(tail@.len() == 0);
            assert(views(out@) + lines_of(tail@) =~= views(before) + seq![rest@]);
            rest = tail;
        }
    }
    assert(views(out@) =~= lines_of(s@));
    out
}

/// The maximal runs of characters that are not white space.
pub open spec fn words_of(s: Seq<char>) -> Seq<Seq<char>>
    decreases s.len(),
{
    let t = strip_front(s, Class::Space);
    let n = first_in(t, Class::Space);
    if 0 < n <= t.len() <= s.len() {
        seq![t.take(n)] + words_of(t.skip(n))
    } else {
        seq![]
    }
}

pub fn words<'a>(s: &'a [char]) -> (r: Vec<&'a [char]>)
    ensures
        views(r@) == words_of(s@),
{
    let mut out: Vec<&'a [char]> = Vec::new();
    let mut rest: &'a [char] = s;
    assert(views(out@) + words_of(rest@) =~= words_of(s@));
    loop
        invariant
            views(out@) + words_of(rest@) == words_of(s@),
        decreases rest@.len(),
    {
        let t = trim_front(rest, Class::Space);
        let n = find_in(t, Class::Space);
        let ghost before = out@;
        if n == 0 {
            assert(views(out@) =~= words_of(s@));
            return out;
        }
        let head = slice_subrange(t, 0, n);
        let tail = slice_subrange(t, n, t.len());
        out.push(head);
        assert(tail@ =~= t@.skip(n as int));
        assert(head@ =~= t@.take(n as int));
        assert(views(out@) =~= views(before).push(head@));
        assert(views(out@) + words_of(tail@) =~= views(before) + (seq![head@] + words_of(tail@)));
        rest = tail;
    }
}

// --------------------------------------------------------------- joining ----

/// The parts with `sep` between each two.
pub open spec fn joined(parts: Seq<Seq<char>>, sep: Seq<char>) -> Seq<char>
    decreases parts.len(),
{
    if parts.len() == 0 {
        seq![]
    } else if parts.len() == 1 {
        parts[0]
    } else {
        joined(parts.drop_last(), sep) + sep + parts.last()
    }
}

pub fn append_chars(s: &mut String, t: &[char])
    ensures
        final(s)@ == old(s)@ + t@,
{
    let t = string_of(t);
    s.append(t.as_str());
}

pub fn join_words(parts: &[&[char]], sep: &str) -> (r: String)
    ensures
        r@ == joined(views(parts@), sep@),
{
    let mut r = String::new();
    let mut i: usize = 0;
    let ghost v = views(parts@);
    while i < parts.len()
        invariant
            v == views(parts@),
            i <= parts.len(),
            r@ == joined(v.take(i as int), sep@),
        decreases parts.len() - i,
    {
        assert(v.take(i + 1).drop_last() =~= v.take(i as int));
        assert(v.take(i + 1).last() == parts@[i as int]@);
        if i > 0 {
            r.append(sep);
        }
        append_chars(&mut r, parts[i]);
        if i == 0 {
            assert(v.take(1)[0] == parts@[0]@);
            assert(r@ =~= parts@[0]@);
        }
        i += 1;
    }
    assert(v.take(v.len() as int) =~= v);
    r
}

pub fn join(parts: &Vec<String>, sep: &str) -> (r: String)
    ensures
        r@ == joined(views(parts@), sep@),
{
    let mut r = String::new();
    let mut i: usize = 0;
    let ghost v = views(parts@);
    while i < parts.len()
        invariant
            v == views(parts@),
            i <= parts.len(),
            r@ == joined(v.take(i as int), sep@),
        decreases parts.len() - i,
    {
        assert(v.take(i + 1).drop_last() =~= v.take(i as int));
        assert(v.take(i + 1).last() == parts@[i as int]@);
        if i > 0 {
            r.append(sep);
        }
        r.append(parts[i].as_str());
        if i == 0 {
            assert(v.take(1)[0] == parts@[0]@);
            assert(r@ =~= parts@[0]@);
        }
        i += 1;
    }
    assert(v.take(v.len() as int) =~= v);
    r
}

/// Whether a string is empty.
pub fn is_blank(s: &String) -> (yes: bool)
    ensures
        yes == (s@.len() == 0),
{
    proof {
        reveal_strlit("");
        assert(s@.len() == 0 ==> s@ =~= ""@);
    }
    eq(s.as_str(), "")
}

// ------------------------------------------------------------ line by line ----

/// An optional value by its view.
pub open spec fn viewed<T: View>(o: Option<T>) -> Option<T::V> {
    match o {
        Some(x) => Some(x@),
        None => None,
    }
}

/// Reads each part on its own and keeps what comes of it.
pub fn each_part<T: View, F: Fn(&[char]) -> Option<T>>(
    parts: &Vec<&[char]>,
    f: F,
    Ghost(rule): Ghost<spec_fn(Seq<char>) -> Option<T::V>>,
) -> (r: Vec<T>)
    requires
        forall|part: &[char]| #[trigger] f.requires((part,)),
        forall|part: &[char], o: Option<T>| #[trigger]
            f.ensures((part,), o) ==> viewed(o) == rule(part@),
    ensures
        views(r@) == views(parts@).filter_map(rule),
{
    let ghost all = views(parts@);
    let mut out: Vec<T> = Vec::new();
    let mut i: usize = 0;
    assert(views(out@) =~= all.take(0).filter_map(rule));
    while i < parts.len()
        invariant
            i <= parts.len(),
            all == views(parts@),
            views(out@) == all.take(i as int).filter_map(rule),
            forall|part: &[char]| #[trigger] f.requires((part,)),
            forall|part: &[char], o: Option<T>| #[trigger]
                f.ensures((part,), o) ==> viewed(o) == rule(part@),
        decreases parts.len() - i,
    {
        let row = f(parts[i]);
        proof {
            all.lemma_filter_map_take_succ(rule, i as int);
        }
        if let Some(x) = row {
            let ghost seen = x@;
            let ghost kept = out@;
            out.push(x);
            assert(views(out@) =~= views(kept) + seq![seen]);
        }
        i += 1;
    }
    assert(all.take(all.len() as int) =~= all);
    out
}

/// Reads each line on its own and keeps what comes of it.
pub fn each_line<T: View, F: Fn(&[char]) -> Option<T>>(
    raw: &str,
    f: F,
    Ghost(rule): Ghost<spec_fn(Seq<char>) -> Option<T::V>>,
) -> (r: Vec<T>)
    requires
        forall|line: &[char]| #[trigger] f.requires((line,)),
        forall|line: &[char], o: Option<T>| #[trigger]
            f.ensures((line,), o) ==> viewed(o) == rule(line@),
    ensures
        views(r@) == lines_of(raw@).filter_map(rule),
{
    let cs = chars_of(raw);
    let ls = lines(cs.as_slice());
    each_part(&ls, f, Ghost(rule))
}

// ----------------------------------------------------------------- case ----

/// A text in lower case, as `str::to_lowercase` writes it.
pub uninterp spec fn lowercase(s: Seq<char>) -> Seq<char>;

/// Whether a text is made of ASCII characters.
pub open spec fn is_ascii_text(s: Seq<char>) -> bool {
    forall|i: int| 0 <= i < s.len() ==> (#[trigger] s[i] as u32) < 128
}

/// An ASCII capital as a small letter; any other character as itself.
pub open spec fn ascii_lower(c: char) -> char {
    if 'A' <= c <= 'Z' {
        (c as int + 32) as char
    } else {
        c
    }
}

/// A text with its ASCII capitals as small letters.
pub open spec fn ascii_lowered(s: Seq<char>) -> Seq<char> {
    s.map_values(|c: char| ascii_lower(c))
}

pub fn lower_char(c: char) -> (r: char)
    ensures
        r == ascii_lower(c),
{
    if 'A' <= c && c <= 'Z' {
        (c as u8 + 32u8) as char
    } else {
        c
    }
}

/// The characters with the ASCII capitals as small letters.
pub fn lower_ascii(s: &[char]) -> (r: Vec<char>)
    ensures
        r@ == ascii_lowered(s@),
{
    let mut r: Vec<char> = Vec::new();
    let mut i: usize = 0;
    while i < s.len()
        invariant
            i <= s.len(),
            r@ == ascii_lowered(s@.take(i as int)),
        decreases s.len() - i,
    {
        r.push(lower_char(s[i]));
        i += 1;
        assert(r@ =~= ascii_lowered(s@.take(i as int)));
    }
    assert(s@.take(s@.len() as int) =~= s@);
    r
}

/// `str::to_lowercase`: the result depends on the text alone, and in an ASCII
/// text the capitals become small letters and nothing else changes. What
/// becomes of other characters is left to Unicode.
#[verifier::external_body]
pub(crate) fn to_lowercase(s: &str) -> (r: String)
    ensures
        r@ == lowercase(s@),
        is_ascii_text(s@) ==> r@ == ascii_lowered(s@),
{
    s.to_lowercase()
}

/// A text in upper case, as `str::to_uppercase` writes it.
pub uninterp spec fn uppercase(s: Seq<char>) -> Seq<char>;

/// An ASCII small letter as a capital; any other character as itself.
pub open spec fn ascii_upper(c: char) -> char {
    if 'a' <= c <= 'z' {
        (c as int - 32) as char
    } else {
        c
    }
}

/// `str::to_uppercase`: the result depends on the text alone, and in an ASCII
/// text the small letters become capitals and nothing else changes. What becomes
/// of other characters is left to Unicode.
#[verifier::external_body]
pub(crate) fn to_uppercase(s: &str) -> (r: String)
    ensures
        r@ == uppercase(s@),
        is_ascii_text(s@) ==> r@ == s@.map_values(|c: char| ascii_upper(c)),
{
    s.to_uppercase()
}

} // verus!
