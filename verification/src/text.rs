//! Text helpers on characters: trimming, splitting, number parsing and
//! number formatting.
use vstd::prelude::*;
use vstd::slice::slice_subrange;

verus! {

/// The characters of a string.
pub fn to_chars(s: &str) -> (v: Vec<char>)
    ensures
        v@ == s@,
{
    let mut v: Vec<char> = Vec::new();
    for c in it: s.chars()
        invariant
            v@ == s@.take(it.index() as int),
            it.seq() == s@,
    {
        v.push(c);
        assert(s@.take(it.index() as int + 1) =~= s@.take(it.index() as int).push(c));
    }
    assert(s@.take(s@.len() as int) =~= s@);
    v
}

/// `String::from_iter` over characters: the string that consists of
/// exactly these characters, in order.
#[verifier::external_body]
fn collect_string(v: Vec<char>) -> (s: String)
    ensures
        s@ == v@,
{
    String::from_iter(v)
}

/// The string of the given characters.
pub fn string_of(s: &[char]) -> (r: String)
    ensures
        r@ == s@,
{
    let mut v: Vec<char> = Vec::new();
    let mut i: usize = 0;
    while i < s.len()
        invariant
            i <= s@.len(),
            v@ == s@.take(i as int),
        decreases s@.len() - i,
    {
        v.push(s[i]);
        i += 1;
        assert(s@.take(i as int) =~= s@.take(i - 1).push(s@[i - 1]));
    }
    assert(s@.take(i as int) =~= s@);
    collect_string(v)
}

/// Equality of two character slices.
pub fn eq_chars(a: &[char], b: &[char]) -> (r: bool)
    ensures
        r == (a@ == b@),
{
    if a.len() != b.len() {
        return false;
    }
    let mut i: usize = 0;
    while i < a.len()
        invariant
            i <= a@.len(),
            a@.len() == b@.len(),
            forall|j: int| 0 <= j < i ==> a@[j] == b@[j],
        decreases a@.len() - i,
    {
        if a[i] != b[i] {
            return false;
        }
        i += 1;
    }
    assert(a@ =~= b@);
    true
}

/// Whether the characters are exactly those of `s`.
pub fn is_text(a: &[char], s: &str) -> (r: bool)
    ensures
        r == (a@ == s@),
{
    let b = to_chars(s);
    eq_chars(a, b.as_slice())
}

/// Equality of two strings.
pub fn same_text(a: &str, b: &str) -> (r: bool)
    ensures
        r == (a@ == b@),
{
    let v = to_chars(a);
    is_text(v.as_slice(), b)
}

// ---------------------------------------------------------------------
// Whitespace
// ---------------------------------------------------------------------

/// A whitespace character (the Unicode `White_Space` property).
pub open spec fn white(c: char) -> bool {
    let x = c as u32;
    ||| 9 <= x <= 13
    ||| x == 32
    ||| x == 0x85
    ||| x == 0xa0
    ||| x == 0x1680
    ||| 0x2000 <= x <= 0x200a
    ||| x == 0x2028
    ||| x == 0x2029
    ||| x == 0x202f
    ||| x == 0x205f
    ||| x == 0x3000
}

/// Test for whitespace.
pub fn is_white(c: char) -> (r: bool)
    ensures
        r == white(c),
{
    let x: u32 = c as u32;
    (9 <= x && x <= 13) || x == 32 || x == 0x85 || x == 0xa0 || x == 0x1680 || (0x2000 <= x && x
        <= 0x200a) || x == 0x2028 || x == 0x2029 || x == 0x202f || x == 0x205f || x == 0x3000
}

/// How many characters at the front are whitespace.
pub open spec fn lead(s: Seq<char>) -> nat
    decreases s.len(),
{
    if s.len() == 0 || !white(s[0]) {
        0
    } else {
        1 + lead(s.skip(1))
    }
}

/// How many characters at the end are whitespace.
pub open spec fn trail(s: Seq<char>) -> nat
    decreases s.len(),
{
    if s.len() == 0 || !white(s.last()) {
        0
    } else {
        1 + trail(s.drop_last())
    }
}

/// `s` without leading whitespace.
pub open spec fn unlead(s: Seq<char>) -> Seq<char> {
    s.skip(lead(s) as int)
}

/// `s` without leading and trailing whitespace.
pub open spec fn trimmed(s: Seq<char>) -> Seq<char> {
    let t = unlead(s);
    t.take(t.len() - trail(t))
}

proof fn lemma_lead_bound(s: Seq<char>)
    ensures
        lead(s) <= s.len(),
    decreases s.len(),
{
    if s.len() > 0 && white(s[0]) {
        lemma_lead_bound(s.skip(1));
    }
}

proof fn lemma_trail_bound(s: Seq<char>)
    ensures
        trail(s) <= s.len(),
    decreases s.len(),
{
    if s.len() > 0 && white(s.last()) {
        lemma_trail_bound(s.drop_last());
    }
}

/// Drop leading whitespace.
pub fn trim_start(s: &[char]) -> (r: &[char])
    ensures
        r@ == unlead(s@),
{
    let mut i: usize = 0;
    assert(s@.skip(0) =~= s@);
    while i < s.len() && is_white(s[i])
        invariant
            i <= s@.len(),
            i + lead(s@.skip(i as int)) == lead(s@),
        decreases s@.len() - i,
    {
        assert(s@.skip(i as int).skip(1) =~= s@.skip(i + 1));
        assert(s@.skip(i as int)[0] == s@[i as int]);
        i += 1;
    }
    proof {
        if i < s@.len() {
            assert(s@.skip(i as int)[0] == s@[i as int]);
        }
        assert(lead(s@.skip(i as int)) == 0);
    }
    let r = slice_subrange(s, i, s.len());
    assert(r@ =~= s@.skip(i as int));
    r
}

/// Drop leading and trailing whitespace.
pub fn trim(s: &[char]) -> (r: &[char])
    ensures
        r@ == trimmed(s@),
{
    let t = trim_start(s);
    let mut n: usize = t.len();
    assert(t@.take(t@.len() as int) =~= t@);
    while n > 0 && is_white(t[n - 1])
        invariant
            n <= t@.len(),
            n - trail(t@.take(n as int)) == t@.len() - trail(t@),
        decreases n,
    {
        assert(t@.take(n as int).drop_last() =~= t@.take(n - 1));
        assert(t@.take(n as int).last() == t@[n - 1]);
        n -= 1;
    }
    proof {
        if n > 0 {
            assert(t@.take(n as int).last() == t@[n - 1]);
        }
        assert(trail(t@.take(n as int)) == 0);
    }
    let r = slice_subrange(t, 0, n);
    assert(r@ =~= t@.take(n as int));
    r
}

/// ASCII lower case of one character.
pub open spec fn lower(c: char) -> char {
    if 'A' <= c && c <= 'Z' {
        ((c as u32 + 32) as u8) as char
    } else {
        c
    }
}

/// ASCII upper case of one character.
pub open spec fn upper(c: char) -> char {
    if 'a' <= c && c <= 'z' {
        ((c as u32 - 32) as u8) as char
    } else {
        c
    }
}

/// ASCII lower case of every character.
pub fn to_ascii_lowercase(s: &[char]) -> (v: Vec<char>)
    ensures
        v@ == s@.map_values(|c: char| lower(c)),
{
    let mut v: Vec<char> = Vec::new();
    let mut i: usize = 0;
    let ghost all = s@.map_values(|c: char| lower(c));
    while i < s.len()
        invariant
            i <= s@.len(),
            all == s@.map_values(|c: char| lower(c)),
            v@ == all.take(i as int),
        decreases s@.len() - i,
    {
        let c: char = s[i];
        let d: char = if 'A' <= c && c <= 'Z' {
            (c as u8 + 32) as char
        } else {
            c
        };
        v.push(d);
        i += 1;
        assert(all.take(i as int) =~= all.take(i - 1).push(all[i - 1]));
    }
    assert(all.take(i as int) =~= all);
    v
}

/// ASCII upper case of every character.
pub fn to_ascii_uppercase(s: &[char]) -> (v: Vec<char>)
    ensures
        v@ == s@.map_values(|c: char| upper(c)),
{
    let mut v: Vec<char> = Vec::new();
    let mut i: usize = 0;
    let ghost all = s@.map_values(|c: char| upper(c));
    while i < s.len()
        invariant
            i <= s@.len(),
            all == s@.map_values(|c: char| upper(c)),
            v@ == all.take(i as int),
        decreases s@.len() - i,
    {
        let c: char = s[i];
        let d: char = if 'a' <= c && c <= 'z' {
            (c as u8 - 32) as char
        } else {
            c
        };
        v.push(d);
        i += 1;
        assert(all.take(i as int) =~= all.take(i - 1).push(all[i - 1]));
    }
    assert(all.take(i as int) =~= all);
    v
}

// ---------------------------------------------------------------------
// Splitting
// ---------------------------------------------------------------------

/// Index of the first `c` at or after `i`; the length when there is none.
pub open spec fn find_from(s: Seq<char>, c: char, i: int) -> int
    decreases s.len() - i,
{
    if 0 <= i < s.len() && s[i] != c {
        find_from(s, c, i + 1)
    } else {
        i
    }
}

/// The pieces of `s` between occurrences of `sep`.
pub open spec fn pieces(s: Seq<char>, sep: char) -> Seq<Seq<char>>
    decreases s.len(),
{
    let k = find_from(s, sep, 0);
    if 0 <= k < s.len() {
        seq![s.take(k)] + pieces(s.skip(k + 1), sep)
    } else {
        seq![s]
    }
}

/// Where the first `c` at or after `i` stands.
pub proof fn lemma_find_from(s: Seq<char>, c: char, i: int)
    requires
        0 <= i <= s.len(),
    ensures
        i <= find_from(s, c, i) <= s.len(),
        find_from(s, c, i) < s.len() ==> s[find_from(s, c, i)] == c,
        forall|j: int| i <= j < find_from(s, c, i) ==> s[j] != c,
    decreases s.len() - i,
{
    if i < s.len() && s[i] != c {
        lemma_find_from(s, c, i + 1);
    }
}

/// Index of the first `c`; the length when there is none.
pub fn find(s: &[char], c: char) -> (r: usize)
    ensures
        r == find_from(s@, c, 0),
        r <= s@.len(),
{
    let mut i: usize = 0;
    while i < s.len() && s[i] != c
        invariant
            i <= s@.len(),
            find_from(s@, c, i as int) == find_from(s@, c, 0),
        decreases s@.len() - i,
    {
        i += 1;
    }
    i
}

/// The views of a list of slices.
pub open spec fn slice_views(v: Seq<&[char]>) -> Seq<Seq<char>> {
    v.map_values(|x: &[char]| x@)
}

/// The pieces between occurrences of `sep`.
pub fn split(s: &[char], sep: char) -> (out: Vec<&[char]>)
    ensures
        slice_views(out@) == pieces(s@, sep),
{
    let mut out: Vec<&[char]> = Vec::new();
    let mut rest: &[char] = s;
    assert(slice_views(out@) + pieces(rest@, sep) =~= pieces(s@, sep));
    loop
        invariant
            slice_views(out@) + pieces(rest@, sep) == pieces(s@, sep),
        decreases rest@.len(),
    {
        let ghost had = out@;
        let ghost before = rest@;
        let k: usize = find(rest, sep);
        if k >= rest.len() {
            out.push(rest);
            proof {
                assert(slice_views(out@) =~= slice_views(had).push(before));
                assert(slice_views(out@) =~= slice_views(had) + pieces(before, sep));
            }
            return out;
        }
        let piece = slice_subrange(rest, 0, k);
        out.push(piece);
        rest = slice_subrange(rest, k + 1, rest.len());
        proof {
            assert(piece@ =~= before.take(k as int));
            assert(rest@ =~= before.skip(k + 1));
            assert(slice_views(out@) =~= slice_views(had).push(piece@));
            assert(slice_views(out@) + pieces(rest@, sep) =~= slice_views(had) + pieces(
                before,
                sep,
            ));
        }
    }
}

/// The parts before and after the first `sep`, if there is one.
pub fn split_once<'a>(s: &'a [char], sep: char) -> (r: Option<(&'a [char], &'a [char])>)
    ensures
        match r {
            Some((a, b)) => {
                let k = find_from(s@, sep, 0);
                &&& k < s@.len()
                &&& a@ == s@.take(k)
                &&& b@ == s@.skip(k + 1)
            },
            None => find_from(s@, sep, 0) == s@.len(),
        },
{
    let k: usize = find(s, sep);
    if k >= s.len() {
        return None;
    }
    let a = slice_subrange(s, 0, k);
    let b = slice_subrange(s, k + 1, s.len());
    assert(a@ =~= s@.take(k as int));
    assert(b@ =~= s@.skip(k + 1));
    Some((a, b))
}

/// A line without the carriage return before its line feed.
pub open spec fn strip_cr(s: Seq<char>) -> Seq<char> {
    if s.len() > 0 && s.last() == '\r' {
        s.drop_last()
    } else {
        s
    }
}

/// The lines of a text: what stands between line feeds, without the
/// carriage return of a CRLF ending; a final line feed ends no extra line.
pub open spec fn text_lines(s: Seq<char>) -> Seq<Seq<char>> {
    let ps = pieces(s, '\n');
    let n = if ps.last().len() == 0 {
        (ps.len() - 1) as nat
    } else {
        ps.len()
    };
    Seq::new(
        n,
        |i: int|
            if i < ps.len() - 1 {
                strip_cr(ps[i])
            } else {
                ps[i]
            },
    )
}

pub proof fn lemma_pieces_nonempty(s: Seq<char>, sep: char)
    ensures
        pieces(s, sep).len() > 0,
        pieces(s, sep).len() <= s.len() + 1,
    decreases s.len(),
{
    let k = find_from(s, sep, 0);
    if 0 <= k < s.len() {
        lemma_pieces_nonempty(s.skip(k + 1), sep);
    }
}

/// The lines of a text.
pub fn lines(s: &[char]) -> (out: Vec<&[char]>)
    ensures
        slice_views(out@) == text_lines(s@),
        out@.len() <= s@.len(),
{
    let ps = split(s, '\n');
    let ghost pv = pieces(s@, '\n');
    let ghost all = text_lines(s@);
    proof {
        lemma_pieces_nonempty(s@, '\n');
        assert(slice_views(ps@).len() == ps@.len());
        lemma_lines_bound(s@);
    }
    let last: usize = ps.len() - 1;
    assert(pv[last as int] == ps@[last as int]@);
    let n: usize = if ps[last].len() == 0 {
        last
    } else {
        last + 1
    };
    let mut out: Vec<&[char]> = Vec::new();
    let mut i: usize = 0;
    assert(slice_views(out@) =~= all.take(0));
    while i < n
        invariant
            i <= n,
            pv == slice_views(ps@),
            pv == pieces(s@, '\n'),
            all == text_lines(s@),
            last == ps@.len() - 1,
            n == all.len(),
            n <= last + 1,
            slice_views(out@) == all.take(i as int),
        decreases n - i,
    {
        let ghost had = out@;
        let line: &[char] = ps[i];
        assert(pv[i as int] == line@);
        let m: usize = line.len();
        let kept: &[char] = if i < last && m > 0 && line[m - 1] == '\r' {
            slice_subrange(line, 0, m - 1)
        } else {
            line
        };
        proof {
            if i < last {
                assert(kept@ =~= strip_cr(line@));
            }
        }
        out.push(kept);
        i += 1;
        proof {
            assert(slice_views(out@) =~= slice_views(had).push(kept@));
            assert(all.take(i as int) =~= all.take(i - 1).push(all[i - 1]));
        }
    }
    assert(all.take(i as int) =~= all);
    out
}

/// A text has no more lines than characters.
pub proof fn lemma_lines_bound(s: Seq<char>)
    ensures
        text_lines(s).len() <= s.len(),
    decreases s.len(),
{
    let k = find_from(s, '\n', 0);
    lemma_find_from(s, '\n', 0);
    lemma_pieces_nonempty(s, '\n');
    if 0 <= k < s.len() {
        let rest = s.skip(k + 1);
        lemma_lines_bound(rest);
        lemma_pieces_nonempty(rest, '\n');
        assert(pieces(s, '\n').last() == pieces(rest, '\n').last());
    } else {
        assert(pieces(s, '\n').last() == s);
    }
}

/// Index of the first whitespace; the length when there is none.
pub open spec fn word_end(s: Seq<char>) -> nat
    decreases s.len(),
{
    if s.len() == 0 || white(s[0]) {
        0
    } else {
        1 + word_end(s.skip(1))
    }
}

/// The words of a text: its maximal runs of non-whitespace.
pub open spec fn words(s: Seq<char>) -> Seq<Seq<char>>
    decreases s.len(),
    via words_decreases
{
    let t = unlead(s);
    if t.len() == 0 {
        Seq::empty()
    } else {
        let k = word_end(t);
        seq![t.take(k as int)] + words(t.skip(k as int))
    }
}

#[via_fn]
proof fn words_decreases(s: Seq<char>) {
    lemma_unlead(s);
}

proof fn lemma_word_end(s: Seq<char>)
    ensures
        word_end(s) <= s.len(),
        s.len() > 0 && !white(s[0]) ==> word_end(s) > 0,
    decreases s.len(),
{
    if s.len() > 0 && !white(s[0]) {
        lemma_word_end(s.skip(1));
    }
}

proof fn lemma_unlead(s: Seq<char>)
    ensures
        lead(s) <= s.len(),
        unlead(s).len() > 0 ==> !white(unlead(s)[0]),
        lead(s) < s.len() ==> 0 < word_end(unlead(s)) <= unlead(s).len(),
    decreases s.len(),
{
    lemma_lead_bound(s);
    if s.len() > 0 && white(s[0]) {
        lemma_unlead(s.skip(1));
        lemma_lead_bound(s.skip(1));
        assert(unlead(s) =~= unlead(s.skip(1)));
    } else {
        assert(unlead(s) =~= s);
    }
    lemma_word_end(unlead(s));
}

/// The words of a text.
pub fn split_whitespace(s: &[char]) -> (out: Vec<&[char]>)
    ensures
        slice_views(out@) == words(s@),
{
    let mut out: Vec<&[char]> = Vec::new();
    let mut rest: &[char] = s;
    assert(slice_views(out@) + words(rest@) =~= words(s@));
    loop
        invariant
            slice_views(out@) + words(rest@) == words(s@),
        decreases rest@.len(),
    {
        let ghost before = rest@;
        proof {
            lemma_unlead(before);
        }
        let t = trim_start(rest);
        if t.len() == 0 {
            assert(slice_views(out@) + words(before) =~= slice_views(out@));
            return out;
        }
        let mut k: usize = 0;
        assert(t@.skip(0) =~= t@);
        while k < t.len() && !is_white(t[k])
            invariant
                k <= t@.len(),
                k + word_end(t@.skip(k as int)) == word_end(t@),
            decreases t@.len() - k,
        {
            assert(t@.skip(k as int).skip(1) =~= t@.skip(k + 1));
            assert(t@.skip(k as int)[0] == t@[k as int]);
            k += 1;
        }
        proof {
            if k < t@.len() {
                assert(t@.skip(k as int)[0] == t@[k as int]);
            }
            assert(word_end(t@.skip(k as int)) == 0);
        }
        let ghost had = out@;
        let word = slice_subrange(t, 0, k);
        out.push(word);
        rest = slice_subrange(t, k, t.len());
        proof {
            assert(word@ =~= t@.take(k as int));
            assert(rest@ =~= t@.skip(k as int));
            assert(slice_views(out@) =~= slice_views(had).push(word@));
            assert(slice_views(out@) + words(rest@) =~= slice_views(had) + words(before));
        }
    }
}

// ---------------------------------------------------------------------
// Numbers
// ---------------------------------------------------------------------

/// A decimal digit.
pub open spec fn digit(c: char) -> bool {
    '0' <= c && c <= '9'
}

/// The value of a string of digits.
pub open spec fn digits_value(s: Seq<char>) -> nat
    decreases s.len(),
{
    if s.len() == 0 {
        0
    } else {
        (digits_value(s.drop_last()) * 10 + (s.last() as u32 - 48)) as nat
    }
}

/// One or more digits, nothing else.
pub open spec fn all_digits(s: Seq<char>) -> bool {
    s.len() > 0 && forall|i: int| 0 <= i < s.len() ==> digit(#[trigger] s[i])
}

/// The number that `s` writes: digits with an optional plus sign.
pub open spec fn unsigned_value(s: Seq<char>) -> Option<nat> {
    let d = if s.len() > 0 && s[0] == '+' {
        s.skip(1)
    } else {
        s
    };
    if all_digits(d) {
        Some(digits_value(d))
    } else {
        None
    }
}

/// The number that `s` writes: digits with an optional sign.
pub open spec fn signed_value(s: Seq<char>) -> Option<int> {
    if s.len() > 0 && s[0] == '-' {
        if all_digits(s.skip(1)) {
            Some(-(digits_value(s.skip(1)) as int))
        } else {
            None
        }
    } else {
        match unsigned_value(s) {
            Some(n) => Some(n as int),
            None => None,
        }
    }
}

proof fn lemma_digits_grow(s: Seq<char>, k: int)
    requires
        0 <= k <= s.len(),
        forall|i: int| 0 <= i < s.len() ==> digit(#[trigger] s[i]),
    ensures
        digits_value(s.take(k)) <= digits_value(s),
    decreases s.len(),
{
    if k == s.len() {
        assert(s.take(k) =~= s);
    } else {
        lemma_digits_grow(s.drop_last(), k);
        assert(s.drop_last().take(k) =~= s.take(k));
        assert(digit(s[s.len() - 1]));
    }
}

/// The value of a nonempty string of digits, when it fits.
fn digits_u64(s: &[char]) -> (r: Option<u64>)
    ensures
        r == if all_digits(s@) && digits_value(s@) <= u64::MAX {
            Some(digits_value(s@) as u64)
        } else {
            None
        },
{
    if s.len() == 0 {
        return None;
    }
    let mut bad: usize = 0;
    while bad < s.len()
        invariant
            bad <= s@.len(),
            forall|i: int| 0 <= i < bad ==> digit(#[trigger] s@[i]),
        decreases s@.len() - bad,
    {
        let c: char = s[bad];
        if !('0' <= c && c <= '9') {
            assert(!digit(s@[bad as int]));
            return None;
        }
        bad += 1;
    }
    let mut n: u64 = 0;
    let mut i: usize = 0;
    while i < s.len()
        invariant
            i <= s@.len(),
            all_digits(s@),
            n == digits_value(s@.take(i as int)),
        decreases s@.len() - i,
    {
        let c: char = s[i];
        proof {
            assert(digit(s@[i as int]));
            assert(s@.take(i + 1).drop_last() =~= s@.take(i as int));
            lemma_digits_grow(s@, i + 1);
        }
        let d: u64 = (c as u32 - 48) as u64;
        if n > (u64::MAX - d) / 10 {
            return None;
        }
        n = n * 10 + d;
        i += 1;
    }
    assert(s@.take(i as int) =~= s@);
    Some(n)
}

/// Parse an unsigned number; too large a one is no number.
pub fn parse_u64(s: &[char]) -> (r: Option<u64>)
    ensures
        r == match unsigned_value(s@) {
            Some(n) => if n <= u64::MAX {
                Some(n as u64)
            } else {
                None
            },
            None => None,
        },
{
    if s.len() > 0 && s[0] == '+' {
        let d = slice_subrange(s, 1, s.len());
        assert(d@ =~= s@.skip(1));
        digits_u64(d)
    } else {
        digits_u64(s)
    }
}

/// Parse an unsigned 32-bit number.
pub fn parse_u32(s: &[char]) -> (r: Option<u32>)
    ensures
        r == match unsigned_value(s@) {
            Some(n) => if n <= u32::MAX {
                Some(n as u32)
            } else {
                None
            },
            None => None,
        },
{
    match parse_u64(s) {
        Some(n) => if n <= u32::MAX as u64 {
            Some(n as u32)
        } else {
            None
        },
        None => None,
    }
}

/// Parse a machine-sized unsigned number.
pub fn parse_usize(s: &[char]) -> (r: Option<usize>)
    ensures
        r == match unsigned_value(s@) {
            Some(n) => if n <= usize::MAX {
                Some(n as usize)
            } else {
                None
            },
            None => None,
        },
{
    match parse_u64(s) {
        Some(n) => if n <= usize::MAX as u64 {
            Some(n as usize)
        } else {
            None
        },
        None => None,
    }
}

/// Parse a signed 32-bit number.
pub fn parse_i32(s: &[char]) -> (r: Option<i32>)
    ensures
        r == match signed_value(s@) {
            Some(n) => if i32::MIN <= n <= i32::MAX {
                Some(n as i32)
            } else {
                None
            },
            None => None,
        },
{
    if s.len() > 0 && s[0] == '-' {
        let d = slice_subrange(s, 1, s.len());
        assert(d@ =~= s@.skip(1));
        match digits_u64(d) {
            Some(n) => if n <= 2147483648 {
                Some((0 - n as i64) as i32)
            } else {
                None
            },
            None => None,
        }
    } else {
        match parse_u64(s) {
            Some(n) => if n <= 2147483647 {
                Some(n as i32)
            } else {
                None
            },
            None => None,
        }
    }
}

/// The digit character of a value below ten.
pub open spec fn digit_char(d: nat) -> char {
    ((48 + d) as u8) as char
}

/// The decimal digits of `n`.
pub open spec fn decimal(n: nat) -> Seq<char>
    decreases n,
{
    if n < 10 {
        seq![digit_char(n)]
    } else {
        decimal(n / 10).push(digit_char(n % 10))
    }
}

/// Append the decimal digits of `v`.
pub fn push_num(out: &mut String, v: u64)
    ensures
        final(out)@ == old(out)@ + decimal(v as nat),
{
    let mut digits: Vec<char> = Vec::new();
    let mut n: u64 = v;
    let ghost mut tail: Seq<char> = Seq::empty();
    while n >= 10
        invariant
            tail == digits@.reverse(),
            decimal(n as nat) + tail == decimal(v as nat),
        decreases n,
    {
        let d: char = (48 + (n % 10) as u8) as char;
        proof {
            let before = decimal(n as nat);
            assert(before =~= decimal((n / 10) as nat).push(d));
            assert(before + tail =~= decimal((n / 10) as nat) + (seq![d] + tail));
            assert(digits@.push(d).reverse() =~= seq![d] + digits@.reverse());
            tail = seq![d] + tail;
        }
        digits.push(d);
        n = n / 10;
    }
    let d: char = (48 + n as u8) as char;
    proof {
        assert(decimal(n as nat) =~= seq![d]);
        assert(digits@.push(d).reverse() =~= seq![d] + digits@.reverse());
    }
    digits.push(d);
    let mut ordered: Vec<char> = Vec::new();
    let mut i: usize = digits.len();
    while i > 0
        invariant
            i <= digits@.len(),
            ordered@ == digits@.reverse().take(digits@.len() - i),
        decreases i,
    {
        i -= 1;
        ordered.push(digits[i]);
        assert(digits@.reverse().take(digits@.len() - i) =~= digits@.reverse().take(
            digits@.len() - i - 1,
        ).push(digits@[i as int]));
    }
    assert(ordered@ =~= digits@.reverse());
    let s = collect_string(ordered);
    out.append(s.as_str());
}

/// Reading back the decimal digits of a number gives the number.
pub proof fn law_decimal_roundtrip(n: nat)
    ensures
        all_digits(decimal(n)),
        digits_value(decimal(n)) == n,
        unsigned_value(decimal(n)) == Some(n),
    decreases n,
{
    if n < 10 {
        let s = decimal(n);
        assert(s.drop_last() =~= Seq::empty());
        assert(digit(s[0]));
        assert(digits_value(s.drop_last()) == 0);
    } else {
        law_decimal_roundtrip(n / 10);
        let s = decimal(n);
        assert(s.drop_last() =~= decimal(n / 10));
        assert forall|i: int| 0 <= i < s.len() implies digit(#[trigger] s[i]) by {
            if i < s.len() - 1 {
                assert(s[i] == decimal(n / 10)[i]);
            }
        }
    }
    assert(digit(decimal(n)[0]));
}

} // verus!
