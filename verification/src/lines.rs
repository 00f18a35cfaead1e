//! How lines and words behave when texts are put together.

use crate::fmt::{dec, dec_int, digit_char};
use crate::number::{digit_value, digits_value, signed_of};
use crate::text::{
    all_in, first_in, first_out, is_digit, is_space, joined, last_out, lemma_first_in,
    lemma_first_out, lemma_last_out, lines_of, pieces, strip_back, strip_front, trimmed, without_cr,
    words_of, Class,
};
use vstd::prelude::*;

verus! {

/// Whether a text has no white space in it, and is not empty.
pub open spec fn is_word(s: Seq<char>) -> bool {
    s.len() > 0 && forall|j: int| 0 <= j < s.len() ==> !is_space(#[trigger] s[j])
}

pub proof fn lemma_first_in_is(s: Seq<char>, k: Class, i: int)
    requires
        0 <= i <= s.len(),
        i < s.len() ==> k.holds(s[i]),
        forall|j: int| 0 <= j < i ==> !k.holds(#[trigger] s[j]),
    ensures
        first_in(s, k) == i,
{
    lemma_first_in(s, k);
    let f = first_in(s, k);
    if f < i {
        assert(!k.holds(s[f]));
    } else if i < f {
        assert(!k.holds(s[i]));
    }
}

pub proof fn lemma_first_out_is(s: Seq<char>, k: Class, i: int)
    requires
        0 <= i <= s.len(),
        i < s.len() ==> !k.holds(s[i]),
        forall|j: int| 0 <= j < i ==> k.holds(#[trigger] s[j]),
    ensures
        first_out(s, k) == i,
{
    lemma_first_out(s, k);
    let f = first_out(s, k);
    if f < i {
        assert(k.holds(s[f]));
    } else if i < f {
        assert(k.holds(s[i]));
    }
}

/// A text that neither begins nor ends with white space is trimmed already.
pub proof fn lemma_trimmed_already(s: Seq<char>)
    requires
        s.len() > 0,
        !is_space(s[0]),
        !is_space(s.last()),
    ensures
        trimmed(s) == s,
{
    lemma_first_out_is(s, Class::Space, 0);
    assert(strip_front(s, Class::Space) =~= s);
    assert(last_out(s, Class::Space) == s.len() - 1);
    assert(strip_back(s, Class::Space) =~= s);
}

/// The lines of two texts, the first of which ends with a line break, are those
/// of the first and then those of the second.
pub proof fn lemma_lines_concat(a: Seq<char>, b: Seq<char>)
    requires
        a.len() > 0 ==> a.last() == '\n',
    ensures
        lines_of(a + b) == lines_of(a) + lines_of(b),
    decreases a.len(),
{
    if a.len() == 0 {
        assert(a + b =~= b);
        assert(lines_of(a) + lines_of(b) =~= lines_of(b));
    } else {
        let k = Class::Only('\n');
        let i = first_in(a, k);
        lemma_first_in(a, k);
        assert(i < a.len()) by {
            if i == a.len() {
                assert(!k.holds(a[a.len() - 1]));
            }
        }
        assert forall|j: int| 0 <= j < i implies !k.holds(#[trigger] (a + b)[j]) by {
            assert((a + b)[j] == a[j]);
        }
        lemma_first_in_is(a + b, k, i);
        assert((a + b).take(i) =~= a.take(i));
        assert((a + b).skip(i + 1) =~= a.skip(i + 1) + b);
        let rest = a.skip(i + 1);
        assert(rest.len() > 0 ==> rest.last() == a.last());
        lemma_lines_concat(rest, b);
        let first = seq![without_cr(a.take(i))];
        assert(first + (lines_of(rest) + lines_of(b)) =~= (first + lines_of(rest)) + lines_of(b));
    }
}

/// A line with its line break is one line.
pub proof fn lemma_one_line(s: Seq<char>)
    requires
        !s.contains('\n'),
        s.len() > 0 ==> s.last() != '\r',
    ensures
        lines_of(s.push('\n')) == seq![s],
{
    let t = s.push('\n');
    let k = Class::Only('\n');
    assert forall|j: int| 0 <= j < s.len() implies !k.holds(#[trigger] t[j]) by {
        assert(s[j] == t[j]);
    }
    lemma_first_in_is(t, k, s.len() as int);
    assert(t.take(s.len() as int) =~= s);
    assert(t.skip(s.len() as int + 1) =~= seq![]);
    assert(without_cr(s) == s);
    assert(seq![s] + lines_of(t.skip(s.len() as int + 1)) =~= seq![s]);
}

/// In a text without carriage returns, lines are what line breaks separate.
pub proof fn lemma_lines_are_pieces(s: Seq<char>)
    requires
        !s.contains('\r'),
    ensures
        lines_of(s.push('\n')) == pieces(s, '\n'),
    decreases s.len(),
{
    let k = Class::Only('\n');
    let t = s.push('\n');
    let i = first_in(s, k);
    lemma_first_in(s, k);
    if i < s.len() {
        assert forall|j: int| 0 <= j < i implies !k.holds(#[trigger] t[j]) by {
            assert(s[j] == t[j]);
        }
        lemma_first_in_is(t, k, i);
        assert(t.take(i) =~= s.take(i));
        assert(t.skip(i + 1) =~= s.skip(i + 1).push('\n'));
        assert(without_cr(s.take(i)) == s.take(i)) by {
            if i > 0 && s.take(i).last() == '\r' {
                assert(s[i - 1] == '\r');
            }
        }
        assert(!s.skip(i + 1).contains('\r')) by {
            let rest = s.skip(i + 1);
            if rest.contains('\r') {
                let j = choose|j: int| 0 <= j < rest.len() && #[trigger] rest[j] == '\r';
                assert(s[i + 1 + j] == '\r');
            }
        }
        lemma_lines_are_pieces(s.skip(i + 1));
    } else {
        assert(!s.contains('\n')) by {
            if s.contains('\n') {
                let j = choose|j: int| 0 <= j < s.len() && s[j] == '\n';
                assert(!k.holds(s[j]));
            }
        }
        assert(s.len() > 0 ==> s.last() != '\r') by {
            if s.len() > 0 {
                assert(s[s.len() - 1] != '\r');
            }
        }
        lemma_one_line(s);
    }
}

/// Joining can be begun at the front.
pub proof fn lemma_joined_front(x: Seq<char>, rest: Seq<Seq<char>>, sep: Seq<char>)
    requires
        rest.len() > 0,
    ensures
        joined(seq![x] + rest, sep) == x + sep + joined(rest, sep),
    decreases rest.len(),
{
    let all = seq![x] + rest;
    assert(all.drop_last() =~= seq![x] + rest.drop_last());
    assert(all.last() == rest.last());
    if rest.len() == 1 {
        assert(all.drop_last() =~= seq![x]);
        assert(joined(seq![x], sep) == x);
        assert(joined(all, sep) == x + sep + rest[0]);
    } else {
        lemma_joined_front(x, rest.drop_last(), sep);
        assert(x + sep + joined(rest.drop_last(), sep) + sep + rest.last() =~= x + sep + (joined(
            rest.drop_last(),
            sep,
        ) + sep + rest.last()));
    }
}

/// What a character separated, it joins again.
pub proof fn lemma_joined_pieces(s: Seq<char>, c: char)
    ensures
        joined(pieces(s, c), seq![c]) == s,
        pieces(s, c).len() > 0,
    decreases s.len(),
{
    let k = Class::Only(c);
    let i = first_in(s, k);
    lemma_first_in(s, k);
    if i < s.len() {
        lemma_joined_pieces(s.skip(i + 1), c);
        lemma_joined_front(s.take(i), pieces(s.skip(i + 1), c), seq![c]);
        assert(s.take(i) + seq![c] + s.skip(i + 1) =~= s);
    }
}

/// Two words with a space between them.
pub proof fn lemma_two_words(a: Seq<char>, b: Seq<char>)
    requires
        a.len() > 0,
        b.len() > 0,
        forall|j: int| 0 <= j < a.len() ==> !is_space(#[trigger] a[j]),
        forall|j: int| 0 <= j < b.len() ==> !is_space(#[trigger] b[j]),
    ensures
        words_of(a + seq![' '] + b) == seq![a, b],
{
    let s = a + seq![' '] + b;
    let k = Class::Space;
    assert(s[0] == a[0]);
    lemma_first_out_is(s, k, 0);
    assert(strip_front(s, k) =~= s);
    assert forall|j: int| 0 <= j < a.len() implies !k.holds(#[trigger] s[j]) by {
        assert(s[j] == a[j]);
    }
    assert(s[a.len() as int] == ' ');
    lemma_first_in_is(s, k, a.len() as int);
    assert(s.take(a.len() as int) =~= a);
    let t = s.skip(a.len() as int);
    assert(t =~= seq![' '] + b);
    assert(t[1] == b[0]);
    lemma_first_out_is(t, k, 1);
    assert(strip_front(t, k) =~= b);
    lemma_first_in_is(b, k, b.len() as int);
    assert(b.take(b.len() as int) =~= b);
    let e = b.skip(b.len() as int);
    assert(e.len() == 0);
    lemma_first_out_is(e, k, 0);
    assert(strip_front(e, k) =~= e);
    lemma_first_in_is(e, k, 0);
    assert(words_of(e) =~= seq![]);
    assert(words_of(t) =~= seq![b]);
    assert(words_of(s) =~= seq![a, b]);
}

/// A number in decimal is digits, and they mean the number.
pub proof fn lemma_dec_digits(n: nat)
    ensures
        dec(n).len() > 0,
        forall|j: int| 0 <= j < dec(n).len() ==> is_digit(#[trigger] dec(n)[j]),
        digits_value(dec(n)) == n,
    decreases n,
{
    let d = digit_char((n % 10) as int);
    assert(is_digit(d) && digit_value(d) == n % 10);
    if n < 10 {
        assert(dec(n).drop_last() =~= seq![]);
        assert(digits_value(dec(n).drop_last()) == 0);
    } else {
        lemma_dec_digits(n / 10);
        assert(dec(n).drop_last() =~= dec(n / 10));
        assert forall|j: int| 0 <= j < dec(n).len() implies is_digit(#[trigger] dec(n)[j]) by {
            if j < dec(n / 10).len() {
                assert(dec(n)[j] == dec(n / 10)[j]);
            }
        }
    }
}

/// An integer in decimal reads back.
pub proof fn lemma_dec_int_reads_back(n: int, max: nat)
    requires
        -max - 1 <= n <= max,
    ensures
        signed_of(dec_int(n), max) == Some(n),
        dec_int(n).len() > 0,
        forall|j: int| 0 <= j < dec_int(n).len() ==> !is_space(#[trigger] dec_int(n)[j]),
{
    reveal_strlit("-");
    if n < 0 {
        let d = dec((-n) as nat);
        lemma_dec_digits((-n) as nat);
        assert(dec_int(n).skip(1) =~= d);
        assert(dec_int(n)[0] == '-');
        assert(all_in(d, Class::Digit));
        assert forall|j: int| 0 <= j < dec_int(n).len() implies !is_space(
            #[trigger] dec_int(n)[j],
        ) by {
            if j > 0 {
                assert(dec_int(n)[j] == d[j - 1]);
            }
        }
    } else {
        let d = dec(n as nat);
        lemma_dec_digits(n as nat);
        assert(is_digit(d[0]));
        assert(all_in(d, Class::Digit));
        assert forall|j: int| 0 <= j < dec_int(n).len() implies !is_space(
            #[trigger] dec_int(n)[j],
        ) by {
            assert(is_digit(d[j]));
        }
    }
}

/// A line break behind the last line completes it.
pub proof fn lemma_last_line(s: Seq<char>)
    requires
        s.len() > 0,
        s.last() != '\n',
    ensures
        lines_of(s).len() > 0,
        lines_of(s.push('\n')) == lines_of(s).drop_last().push(without_cr(lines_of(s).last())),
    decreases s.len(),
{
    let k = Class::Only('\n');
    let t = s.push('\n');
    let i = first_in(s, k);
    lemma_first_in(s, k);
    assert forall|j: int| 0 <= j < i implies !k.holds(#[trigger] t[j]) by {
        assert(s[j] == t[j]);
    }
    lemma_first_in_is(t, k, i);
    assert(t.take(i) =~= s.take(i));
    if i < s.len() {
        let rest = s.skip(i + 1);
        assert(i + 1 < s.len()) by {
            if i + 1 == s.len() {
                assert(k.holds(s[i]));
            }
        }
        assert(rest.last() == s.last());
        lemma_last_line(rest);
        assert(t.skip(i + 1) =~= rest.push('\n'));
        let first = seq![without_cr(s.take(i))];
        assert((first + lines_of(rest)).drop_last() =~= first + lines_of(rest).drop_last());
        assert(lines_of(t) =~= lines_of(s).drop_last().push(without_cr(lines_of(s).last())));
    } else {
        assert(s.take(i) =~= s);
        assert(t.skip(i + 1) =~= seq![]);
        assert(seq![s].drop_last() =~= seq![]);
        assert(lines_of(t.skip(i + 1)).len() == 0);
        assert(lines_of(t) =~= seq![without_cr(s)]);
    }
}

/// A carriage return at the end is white space to trim like any other.
pub proof fn lemma_trimmed_cr(s: Seq<char>)
    ensures
        trimmed(without_cr(s)) == trimmed(s),
{
    if s.len() > 0 && s.last() == '\r' {
        let k = Class::Space;
        let t = s.drop_last();
        let i = first_out(t, k);
        lemma_first_out(t, k);
        assert forall|j: int| 0 <= j < i implies k.holds(#[trigger] s[j]) by {
            assert(s[j] == t[j]);
        }
        if i < t.len() {
            lemma_first_out_is(s, k, i);
            let a = strip_front(t, k);
            let b = strip_front(s, k);
            assert(b =~= a.push('\r'));
            assert(b.drop_last() =~= a);
            lemma_last_out(a, k);
            assert(strip_back(b, k) =~= strip_back(a, k));
        } else {
            assert(k.holds(s[t.len() as int]));
            lemma_first_out_is(s, k, s.len() as int);
            assert(strip_front(s, k) =~= seq![]);
            assert(strip_front(t, k) =~= seq![]);
        }
    }
}

/// Words with a space between each two are those words, and one line.
pub proof fn lemma_words_joined(ws: Seq<Seq<char>>)
    requires
        forall|i: int| 0 <= i < ws.len() ==> is_word(#[trigger] ws[i]),
    ensures
        words_of(joined(ws, " "@)) == ws,
        ws.len() > 0 ==> joined(ws, " "@).len() > 0 && !is_space(joined(ws, " "@)[0]),
        forall|j: int| 0 <= j < joined(ws, " "@).len() ==> #[trigger] joined(ws, " "@)[j] != '\n',
    decreases ws.len(),
{
    reveal_strlit(" ");
    let k = Class::Space;
    let s = joined(ws, " "@);
    if ws.len() == 0 {
        lemma_first_out_is(s, k, 0);
        assert(strip_front(s, k) =~= s);
        lemma_first_in_is(s, k, 0);
        assert(words_of(s) =~= ws);
    } else {
        let x = ws[0];
        let rest = ws.skip(1);
        assert(is_word(x));
        assert(ws =~= seq![x] + rest);
        assert forall|i: int| 0 <= i < rest.len() implies is_word(#[trigger] rest[i]) by {
            assert(rest[i] == ws[i + 1]);
        }
        lemma_words_joined(rest);
        let j = joined(rest, " "@);
        if rest.len() == 0 {
            assert(s == x);
            lemma_word_and_rest(x, seq![]);
            assert(x + seq![] =~= x);
            assert(words_of(x) =~= ws);
        } else {
            lemma_joined_front(x, rest, " "@);
            assert(s =~= x + (seq![' '] + j));
            lemma_word_and_rest(x, seq![' '] + j);
            lemma_first_out_is(j, k, 0);
            lemma_first_out_is(seq![' '] + j, k, 1);
            assert(strip_front(seq![' '] + j, k) =~= j);
            assert(strip_front(j, k) =~= j);
            assert(words_of(seq![' '] + j) == words_of(j));
            assert(words_of(s) =~= ws);
            assert forall|n: int| 0 <= n < s.len() implies #[trigger] s[n] != '\n' by {
                if n < x.len() {
                    assert(s[n] == x[n]);
                } else if n > x.len() {
                    assert(s[n] == j[n - x.len() - 1]);
                }
            }
        }
        assert(s[0] == x[0]);
    }
}

/// A word, and then nothing or white space: the word is the first of the words.
pub proof fn lemma_word_and_rest(x: Seq<char>, rest: Seq<char>)
    requires
        is_word(x),
        rest.len() > 0 ==> is_space(rest[0]),
    ensures
        words_of(x + rest) == seq![x] + words_of(rest),
{
    let s = x + rest;
    let k = Class::Space;
    assert(s[0] == x[0]);
    lemma_first_out_is(s, k, 0);
    assert(strip_front(s, k) =~= s);
    assert forall|j: int| 0 <= j < x.len() implies !k.holds(#[trigger] s[j]) by {
        assert(s[j] == x[j]);
    }
    if rest.len() > 0 {
        assert(s[x.len() as int] == rest[0]);
    }
    lemma_first_in_is(s, k, x.len() as int);
    assert(s.take(x.len() as int) =~= x);
    assert(s.skip(x.len() as int) =~= rest);
}

/// A text without a line break is one line.
pub proof fn lemma_single_line(s: Seq<char>)
    requires
        s.len() > 0,
        forall|j: int| 0 <= j < s.len() ==> #[trigger] s[j] != '\n',
    ensures
        lines_of(s) == seq![s],
{
    lemma_first_in_is(s, Class::Only('\n'), s.len() as int);
}

} // verus!
