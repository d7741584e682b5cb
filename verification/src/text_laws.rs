//! Laws of the text helpers: what trimming takes away, how words are
//! compared without regard to case, how lines and pieces split a text, and
//! how numbers are read.
use vstd::prelude::*;
use crate::text;

verus! {

/// Only white space.
pub open spec fn blank(s: Seq<char>) -> bool {
    forall|i: int| 0 <= i < s.len() ==> text::white(#[trigger] s[i])
}

/// Neither empty nor with white space at an end.
pub open spec fn solid(s: Seq<char>) -> bool {
    s.len() > 0 && !text::white(s[0]) && !text::white(s.last())
}

/// Space, tab and line ends are white space; no visible ASCII character is.
pub proof fn law_ascii_white_space(c: char)
    requires
        c as u32 <= 126,
        c as u32 >= 32 || 9 <= c as u32 <= 13,
    ensures
        text::white(c) == (c as u32 <= 32),
{
}

proof fn lemma_lead(a: Seq<char>, x: Seq<char>)
    requires
        blank(a),
        x.len() == 0 || !text::white(x[0]),
    ensures
        text::lead(a + x) == a.len(),
    decreases a.len(),
{
    if a.len() > 0 {
        assert((a + x)[0] == a[0]);
        assert((a + x).skip(1) =~= a.skip(1) + x);
        assert forall|i: int| 0 <= i < a.skip(1).len() implies text::white(
            #[trigger] a.skip(1)[i],
        ) by {
            assert(a.skip(1)[i] == a[i + 1]);
        }
        lemma_lead(a.skip(1), x);
    } else {
        assert(a + x =~= x);
    }
}

proof fn lemma_trail(x: Seq<char>, b: Seq<char>)
    requires
        blank(b),
        x.len() == 0 || !text::white(x.last()),
    ensures
        text::trail(x + b) == b.len(),
    decreases b.len(),
{
    if b.len() > 0 {
        assert((x + b).last() == b.last());
        assert((x + b).drop_last() =~= x + b.drop_last());
        assert forall|i: int| 0 <= i < b.drop_last().len() implies text::white(
            #[trigger] b.drop_last()[i],
        ) by {
            assert(b.drop_last()[i] == b[i]);
        }
        assert(text::white(b[b.len() - 1]));
        lemma_trail(x, b.drop_last());
    } else {
        assert(x + b =~= x);
    }
}

/// Trimming takes away the white space at both ends and nothing else.
pub proof fn law_trimmed_is_between(a: Seq<char>, x: Seq<char>, b: Seq<char>)
    requires
        blank(a),
        blank(b),
        solid(x),
    ensures
        text::trimmed(a + x + b) == x,
{
    assert(a + x + b =~= a + (x + b));
    assert((x + b)[0] == x[0]);
    lemma_lead(a, x + b);
    assert(text::unlead(a + x + b) =~= x + b);
    lemma_trail(x, b);
    assert((x + b).take(x.len() as int) =~= x);
}

/// A text of white space only is trimmed to nothing.
pub proof fn law_blank_is_trimmed_away(a: Seq<char>)
    requires
        blank(a),
    ensures
        text::trimmed(a) == Seq::<char>::empty(),
{
    assert(a + Seq::<char>::empty() =~= a);
    lemma_lead(a, Seq::empty());
    assert(text::unlead(a) =~= Seq::<char>::empty());
    assert(text::trimmed(a) =~= Seq::<char>::empty());
}

proof fn lemma_lead_is_blank(s: Seq<char>)
    ensures
        text::lead(s) <= s.len(),
        blank(s.take(text::lead(s) as int)),
        text::lead(s) < s.len() ==> !text::white(s[text::lead(s) as int]),
    decreases s.len(),
{
    if s.len() > 0 && text::white(s[0]) {
        lemma_lead_is_blank(s.skip(1));
        let n = text::lead(s) as int;
        assert forall|i: int| 0 <= i < n implies text::white(#[trigger] s.take(n)[i]) by {
            if i > 0 {
                assert(s.skip(1).take(n - 1)[i - 1] == s[i]);
            }
        }
    }
}

proof fn lemma_trail_is_blank(s: Seq<char>)
    ensures
        text::trail(s) <= s.len(),
        blank(s.skip(s.len() - text::trail(s))),
        text::trail(s) < s.len() ==> !text::white(s[s.len() - text::trail(s) - 1]),
    decreases s.len(),
{
    if s.len() > 0 && text::white(s.last()) {
        lemma_trail_is_blank(s.drop_last());
        let n = s.len() - text::trail(s);
        assert forall|i: int| 0 <= i < s.skip(n).len() implies text::white(
            #[trigger] s.skip(n)[i],
        ) by {
            if n + i < s.len() - 1 {
                assert(s.drop_last().skip(n)[i] == s[n + i]);
            }
        }
    }
}

/// Every text is white space, its trimmed middle, and white space.
pub proof fn law_trimmed_parts(s: Seq<char>) -> (parts: (Seq<char>, Seq<char>))
    ensures
        blank(parts.0),
        blank(parts.1),
        s == parts.0 + text::trimmed(s) + parts.1,
        text::trimmed(s).len() > 0 ==> solid(text::trimmed(s)),
{
    lemma_lead_is_blank(s);
    let t = text::unlead(s);
    lemma_trail_is_blank(t);
    let a = s.take(text::lead(s) as int);
    let b = t.skip(t.len() - text::trail(t));
    let x = text::trimmed(s);
    assert(s =~= a + x + b);
    if x.len() > 0 {
        assert(x[0] == s[text::lead(s) as int]);
        assert(x.last() == t[t.len() - text::trail(t) - 1]);
    }
    (a, b)
}

/// `x` spells the lower-case word `w`, in any case.
pub open spec fn spells(x: Seq<char>, w: Seq<char>) -> bool {
    &&& x.len() == w.len()
    &&& forall|i: int|
        0 <= i < x.len() ==> #[trigger] x[i] == w[i] || (65 <= x[i] as u32 <= 90 && ((x[i] as u32
            + 32) as u8) as char == w[i])
}

/// A word without capital letters.
pub open spec fn uncapital(w: Seq<char>) -> bool {
    forall|i: int| 0 <= i < w.len() ==> !(65 <= (#[trigger] w[i]) as u32 <= 90)
}

/// A text in lower case is a word exactly when it spells it in any case.
pub proof fn law_lower_case_ignores_case(x: Seq<char>, w: Seq<char>)
    requires
        uncapital(w),
    ensures
        (x.map_values(|c: char| text::lower(c)) == w) == spells(x, w),
{
    let low = x.map_values(|c: char| text::lower(c));
    if low == w {
        assert forall|i: int| 0 <= i < x.len() implies #[trigger] x[i] == w[i] || (65
            <= x[i] as u32 <= 90 && ((x[i] as u32 + 32) as u8) as char == w[i]) by {
            assert(low[i] == w[i]);
        }
    }
    if spells(x, w) {
        assert forall|i: int| 0 <= i < x.len() implies low[i] == w[i] by {
            assert(!(65 <= w[i] as u32 <= 90));
            assert(x[i] == w[i] || (65 <= x[i] as u32 <= 90 && ((x[i] as u32 + 32) as u8) as char
                == w[i]));
        }
        assert(low =~= w);
    }
}

/// `x` spells the upper-case word `w`, in any case.
pub open spec fn spells_capital(x: Seq<char>, w: Seq<char>) -> bool {
    &&& x.len() == w.len()
    &&& forall|i: int|
        0 <= i < x.len() ==> #[trigger] x[i] == w[i] || (97 <= x[i] as u32 <= 122 && ((x[i] as u32
            - 32) as u8) as char == w[i])
}

/// A text in upper case is an upper-case word exactly when it spells it in
/// any case.
pub proof fn law_upper_case_ignores_case(x: Seq<char>, w: Seq<char>)
    requires
        forall|i: int| 0 <= i < w.len() ==> !(97 <= (#[trigger] w[i]) as u32 <= 122),
    ensures
        (x.map_values(|c: char| text::upper(c)) == w) == spells_capital(x, w),
{
    let up = x.map_values(|c: char| text::upper(c));
    if up == w {
        assert forall|i: int| 0 <= i < x.len() implies #[trigger] x[i] == w[i] || (97
            <= x[i] as u32 <= 122 && ((x[i] as u32 - 32) as u8) as char == w[i]) by {
            assert(up[i] == w[i]);
        }
    }
    if spells_capital(x, w) {
        assert forall|i: int| 0 <= i < x.len() implies up[i] == w[i] by {
            assert(!(97 <= w[i] as u32 <= 122));
            assert(x[i] == w[i] || (97 <= x[i] as u32 <= 122 && ((x[i] as u32 - 32) as u8) as char
                == w[i]));
        }
        assert(up =~= w);
    }
}

/// Without the separator a text is one piece; with it, the piece before the
/// first one comes first, and the pieces of the rest follow.
pub proof fn law_pieces(a: Seq<char>, sep: char, rest: Seq<char>)
    requires
        !a.contains(sep),
    ensures
        text::pieces(a, sep) == seq![a],
        text::pieces(a + seq![sep] + rest, sep) == seq![a] + text::pieces(rest, sep),
{
    lemma_find_absent(a, sep, 0);
    let s = a + seq![sep] + rest;
    lemma_find_at(a, sep, rest, 0);
    assert(s.take(a.len() as int) =~= a);
    assert(s.skip(a.len() as int + 1) =~= rest);
}

proof fn lemma_find_absent(a: Seq<char>, sep: char, i: int)
    requires
        !a.contains(sep),
        0 <= i <= a.len(),
    ensures
        text::find_from(a, sep, i) == a.len(),
    decreases a.len() - i,
{
    if i < a.len() {
        assert(a.contains(a[i]));
        lemma_find_absent(a, sep, i + 1);
    }
}

proof fn lemma_find_at(a: Seq<char>, sep: char, rest: Seq<char>, i: int)
    requires
        !a.contains(sep),
        0 <= i <= a.len(),
    ensures
        text::find_from(a + seq![sep] + rest, sep, i) == a.len(),
    decreases a.len() - i,
{
    let s = a + seq![sep] + rest;
    if i < a.len() {
        assert(s[i] == a[i]);
        assert(a.contains(a[i]));
        lemma_find_at(a, sep, rest, i + 1);
    } else {
        assert(s[i] == sep);
    }
}

/// Where the first colon (or other mark) of a text stands.
pub proof fn law_first_mark(a: Seq<char>, mark: char, rest: Seq<char>)
    requires
        !a.contains(mark),
    ensures
        text::find_from(a + seq![mark] + rest, mark, 0) == a.len(),
        (a + seq![mark] + rest).take(a.len() as int) == a,
        (a + seq![mark] + rest).skip(a.len() as int + 1) == rest,
        text::find_from(a, mark, 0) == a.len(),
{
    lemma_find_at(a, mark, rest, 0);
    lemma_find_absent(a, mark, 0);
    assert((a + seq![mark] + rest).take(a.len() as int) =~= a);
    assert((a + seq![mark] + rest).skip(a.len() as int + 1) =~= rest);
}

/// The lines of a text: the first ends at the first line feed, with or
/// without a carriage return before it, and the lines of the rest follow; a
/// text without a line feed is one line, if it is not empty.
pub proof fn law_lines(a: Seq<char>, rest: Seq<char>)
    requires
        !a.contains('\n'),
    ensures
        a.len() > 0 ==> text::text_lines(a) == seq![a],
        a.len() == 0 ==> text::text_lines(a) == Seq::<Seq<char>>::empty(),
        text::text_lines(a + seq!['\n'] + rest) == seq![
            if a.len() > 0 && a.last() == '\r' {
                a.drop_last()
            } else {
                a
            },
        ] + text::text_lines(rest),
{
    law_pieces(a, '\n', rest);
    let s = a + seq!['\n'] + rest;
    let first = if a.len() > 0 && a.last() == '\r' {
        a.drop_last()
    } else {
        a
    };
    text::lemma_pieces_nonempty(rest, '\n');
    assert(text::pieces(s, '\n').last() == text::pieces(rest, '\n').last());
    assert(text::text_lines(s) =~= seq![first] + text::text_lines(rest));
    if a.len() > 0 {
        assert(text::text_lines(a) =~= seq![a]);
    } else {
        assert(text::text_lines(a) =~= Seq::<Seq<char>>::empty());
    }
}

/// The words of a text: white space in front is skipped, a word ends at
/// white space, and the words of the rest follow.
pub proof fn law_words(a: Seq<char>, w: Seq<char>, rest: Seq<char>)
    requires
        blank(a),
        w.len() > 0,
        forall|i: int| 0 <= i < w.len() ==> !text::white(#[trigger] w[i]),
        rest.len() > 0 ==> text::white(rest[0]),
    ensures
        text::words(a) == Seq::<Seq<char>>::empty(),
        text::words(a + w + rest) == seq![w] + text::words(rest),
{
    assert(a + Seq::<char>::empty() =~= a);
    lemma_lead(a, Seq::empty());
    assert(text::unlead(a) =~= Seq::<char>::empty());
    assert(a + w + rest =~= a + (w + rest));
    assert((w + rest)[0] == w[0]);
    lemma_lead(a, w + rest);
    assert(text::unlead(a + w + rest) =~= w + rest);
    lemma_word_end(w, rest);
    assert((w + rest).take(w.len() as int) =~= w);
    assert((w + rest).skip(w.len() as int) =~= rest);
}

proof fn lemma_word_end(w: Seq<char>, rest: Seq<char>)
    requires
        forall|i: int| 0 <= i < w.len() ==> !text::white(#[trigger] w[i]),
        rest.len() > 0 ==> text::white(rest[0]),
    ensures
        text::word_end(w + rest) == w.len(),
    decreases w.len(),
{
    if w.len() > 0 {
        assert((w + rest)[0] == w[0]);
        assert((w + rest).skip(1) =~= w.skip(1) + rest);
        assert forall|i: int| 0 <= i < w.skip(1).len() implies !text::white(
            #[trigger] w.skip(1)[i],
        ) by {
            assert(w.skip(1)[i] == w[i + 1]);
        }
        lemma_word_end(w.skip(1), rest);
    } else {
        assert(w + rest =~= rest);
    }
}

/// A number is read whatever zeros stand in front of it, with or without a
/// plus sign; a minus sign makes it negative.
pub proof fn law_numbers_are_read(n: nat)
    ensures
        text::unsigned_value(text::decimal(n)) == Some(n),
        text::unsigned_value(seq!['+'] + text::decimal(n)) == Some(n),
        text::unsigned_value(seq!['0'] + text::decimal(n)) == Some(n),
        text::signed_value(text::decimal(n)) == Some(n as int),
        text::signed_value(seq!['+'] + text::decimal(n)) == Some(n as int),
        text::signed_value(seq!['-'] + text::decimal(n)) == Some(-(n as int)),
        text::unsigned_value(seq!['-'] + text::decimal(n)) is None,
        solid(text::decimal(n)),
{
    let d = text::decimal(n);
    text::law_decimal_roundtrip(n);
    assert((seq!['+'] + d).skip(1) =~= d);
    assert((seq!['-'] + d).skip(1) =~= d);
    assert(text::digit(d[0]));
    assert(text::digit(d[d.len() - 1]));
    let z = seq!['0'] + d;
    assert forall|i: int| 0 <= i < z.len() implies text::digit(#[trigger] z[i]) by {
        if i > 0 {
            assert(z[i] == d[i - 1]);
        }
    }
    lemma_zero_in_front(d);
    let m = seq!['-'] + d;
    assert(!text::digit(m[0]));
}

proof fn lemma_zero_in_front(d: Seq<char>)
    ensures
        text::digits_value(seq!['0'] + d) == text::digits_value(d),
    decreases d.len(),
{
    let z = seq!['0'] + d;
    if d.len() == 0 {
        assert(z =~= seq!['0']);
        assert(z.drop_last() =~= Seq::empty());
        assert(text::digits_value(z.drop_last()) == 0);
    } else {
        assert(z.drop_last() =~= seq!['0'] + d.drop_last());
        assert(z.last() == d.last());
        lemma_zero_in_front(d.drop_last());
    }
}

/// A text with anything but digits behind its sign is no number.
pub proof fn law_other_texts_are_no_numbers(s: Seq<char>, i: int)
    requires
        1 <= i < s.len(),
        !('0' <= s[i] && s[i] <= '9'),
    ensures
        text::unsigned_value(s) is None,
        text::signed_value(s) is None,
        text::unsigned_value(Seq::<char>::empty()) is None,
        text::signed_value(Seq::<char>::empty()) is None,
{
    assert(!text::digit(s[i]));
    assert(s.skip(1)[i - 1] == s[i]);
}

} // verus!
