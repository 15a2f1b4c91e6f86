//! Text as bytes: lines, the fields of a line, and the numbers that fields
//! spell.

use vstd::prelude::*;

verus! {

/// The byte that ends a line.
pub const NEWLINE: u8 = 10;

/// The byte is white space: a space, a tab, a line feed, a vertical tab, a
/// form feed or a carriage return.
pub open spec fn is_blank(b: u8) -> bool {
    b == 32 || 9 <= b <= 13
}

/// The byte is one of the digits `0` to `9`.
pub open spec fn is_digit(b: u8) -> bool {
    48 <= b <= 57
}

/// Every byte is a digit.
pub open spec fn all_digits(s: Seq<u8>) -> bool {
    forall|k: int| 0 <= k < s.len() ==> is_digit(#[trigger] s[k])
}

/// The number that the digits spell; zero for no digits.
pub open spec fn value(s: Seq<u8>) -> int
    decreases s.len(),
{
    if s.len() == 0 {
        0
    } else {
        value(s.drop_last()) * 10 + (s.last() - 48)
    }
}

/// The place of the first byte at or after `i` that is blank, where `blank`
/// is set, or that is not blank, where it is not; the length where there is
/// no such byte.
pub open spec fn run_end(s: Seq<u8>, i: int, blank: bool) -> int
    decreases s.len() - i,
{
    if i < 0 || i >= s.len() {
        s.len() as int
    } else if is_blank(s[i]) == blank {
        i
    } else {
        run_end(s, i + 1, blank)
    }
}

/// The place of the first byte at or after `i` that is `b`; the length where
/// there is none.
pub open spec fn find(s: Seq<u8>, i: int, b: u8) -> int
    decreases s.len() - i,
{
    if i < 0 || i >= s.len() {
        s.len() as int
    } else if s[i] == b {
        i
    } else {
        find(s, i + 1, b)
    }
}

/// The fields of a line: its longest runs of bytes that are not blank, from
/// left to right.
pub open spec fn fields(s: Seq<u8>) -> Seq<Seq<u8>>
    decreases s.len(),
{
    let a = run_end(s, 0, false);
    let b = run_end(s, a, true);
    if 0 <= a < b <= s.len() {
        seq![s.subrange(a, b)] + fields(s.subrange(b, s.len() as int))
    } else {
        Seq::empty()
    }
}

/// The lines of a text: what stands between its line feeds. A line feed at
/// the very end of the text starts no further line.
pub open spec fn lines(s: Seq<u8>) -> Seq<Seq<u8>>
    decreases s.len(),
{
    let e = find(s, 0, NEWLINE);
    if s.len() == 0 || !(0 <= e <= s.len()) {
        Seq::empty()
    } else if e == s.len() {
        seq![s]
    } else {
        seq![s.subrange(0, e)] + lines(s.subrange(e + 1, s.len() as int))
    }
}

/// The byte sequences that the vectors hold.
pub open spec fn texts(v: Seq<Vec<u8>>) -> Seq<Seq<u8>> {
    Seq::new(v.len(), |i: int| v[i]@)
}

/// A run ends at or after its start and inside the text; no byte before its
/// end ends it, and the byte at its end does.
pub proof fn lemma_run_end(s: Seq<u8>, i: int, blank: bool)
    requires
        0 <= i <= s.len(),
    ensures
        i <= run_end(s, i, blank) <= s.len(),
        forall|k: int| i <= k < run_end(s, i, blank) ==> is_blank(#[trigger] s[k]) != blank,
        run_end(s, i, blank) < s.len() ==> is_blank(s[run_end(s, i, blank)]) == blank,
    decreases s.len() - i,
{
    if i < s.len() && is_blank(s[i]) != blank {
        lemma_run_end(s, i + 1, blank);
    }
}

/// A search ends at or after its start and inside the text; no byte before its
/// end is the one looked for, and the byte at its end is.
pub proof fn lemma_find(s: Seq<u8>, i: int, b: u8)
    requires
        0 <= i <= s.len(),
    ensures
        i <= find(s, i, b) <= s.len(),
        forall|k: int| i <= k < find(s, i, b) ==> #[trigger] s[k] != b,
        find(s, i, b) < s.len() ==> s[find(s, i, b)] == b,
    decreases s.len() - i,
{
    if i < s.len() && s[i] != b {
        lemma_find(s, i + 1, b);
    }
}

/// A run in what follows place `from` of a text ends where the run in the
/// whole text ends.
pub proof fn lemma_run_end_shift(s: Seq<u8>, from: int, i: int, blank: bool)
    requires
        0 <= from <= s.len(),
        0 <= i <= s.len() - from,
    ensures
        run_end(s.subrange(from, s.len() as int), i, blank) + from == run_end(s, from + i, blank),
    decreases s.len() - from - i,
{
    let rest = s.subrange(from, s.len() as int);
    if i < rest.len() {
        assert(rest[i] == s[from + i]);
        if is_blank(rest[i]) != blank {
            lemma_run_end_shift(s, from, i + 1, blank);
        }
    }
}

/// A search in what follows place `from` of a text ends where the search in
/// the whole text ends.
pub proof fn lemma_find_shift(s: Seq<u8>, from: int, i: int, b: u8)
    requires
        0 <= from <= s.len(),
        0 <= i <= s.len() - from,
    ensures
        find(s.subrange(from, s.len() as int), i, b) + from == find(s, from + i, b),
    decreases s.len() - from - i,
{
    let rest = s.subrange(from, s.len() as int);
    if i < rest.len() {
        assert(rest[i] == s[from + i]);
        if rest[i] != b {
            lemma_find_shift(s, from, i + 1, b);
        }
    }
}

/// Digits spell a number that is not negative, and more digits behind them
/// spell one that is no smaller.
pub proof fn lemma_value_grows(s: Seq<u8>, k: int)
    requires
        all_digits(s),
        0 <= k <= s.len(),
    ensures
        0 <= value(s.subrange(0, k)) <= value(s),
    decreases s.len() - k,
{
    if k == s.len() {
        assert(s.subrange(0, k) =~= s);
        lemma_value_nonnegative(s);
    } else {
        lemma_value_grows(s, k + 1);
        let longer = s.subrange(0, k + 1);
        assert(longer.drop_last() =~= s.subrange(0, k));
        assert(is_digit(s[k]));
        assert(longer.last() == s[k]);
        lemma_value_nonnegative(s.subrange(0, k));
    }
}

/// Digits spell a number that is not negative.
pub proof fn lemma_value_nonnegative(s: Seq<u8>)
    requires
        all_digits(s),
    ensures
        0 <= value(s),
    decreases s.len(),
{
    if s.len() > 0 {
        assert(is_digit(s.last()));
        assert forall|k: int| 0 <= k < s.drop_last().len() implies is_digit(
            #[trigger] s.drop_last()[k],
        ) by {
            assert(s.drop_last()[k] == s[k]);
        }
        lemma_value_nonnegative(s.drop_last());
    }
}

/// The place of the first byte at or after `i` that is blank, where `blank`
/// is set, or that is not blank, where it is not; the length where there is
/// no such byte.
pub fn scan(s: &[u8], i: usize, blank: bool) -> (end: usize)
    requires
        i <= s@.len(),
    ensures
        end == run_end(s@, i as int, blank),
        i <= end <= s@.len(),
{
    let mut k: usize = i;
    while k < s.len() && is_blank_byte(s[k]) != blank
        invariant
            i <= k <= s@.len(),
            run_end(s@, k as int, blank) == run_end(s@, i as int, blank),
        decreases s@.len() - k,
    {
        k = k + 1;
    }
    k
}

/// Whether the byte is white space.
pub fn is_blank_byte(b: u8) -> (r: bool)
    ensures
        r == is_blank(b),
{
    b == 32 || (9 <= b && b <= 13)
}

/// The place of the first byte at or after `i` that is `b`; the length where
/// there is none.
pub fn find_byte(s: &[u8], i: usize, b: u8) -> (end: usize)
    requires
        i <= s@.len(),
    ensures
        end == find(s@, i as int, b),
        i <= end <= s@.len(),
{
    let mut k: usize = i;
    while k < s.len() && s[k] != b
        invariant
            i <= k <= s@.len(),
            find(s@, k as int, b) == find(s@, i as int, b),
        decreases s@.len() - k,
    {
        k = k + 1;
    }
    k
}

/// A copy of the bytes from place `a` up to place `b`.
pub fn copy_range(s: &[u8], a: usize, b: usize) -> (part: Vec<u8>)
    requires
        a <= b <= s@.len(),
    ensures
        part@ == s@.subrange(a as int, b as int),
{
    let mut part: Vec<u8> = Vec::new();
    let mut k: usize = a;
    while k < b
        invariant
            a <= k <= b <= s@.len(),
            part@ == s@.subrange(a as int, k as int),
        decreases b - k,
    {
        part.push(s[k]);
        proof {
            assert(part@ =~= s@.subrange(a as int, k + 1));
        }
        k = k + 1;
    }
    part
}

/// The fields of a line.
pub fn split_fields(line: &[u8]) -> (parts: Vec<Vec<u8>>)
    ensures
        texts(parts@) == fields(line@),
{
    let len: usize = line.len();
    let mut parts: Vec<Vec<u8>> = Vec::new();
    let mut i: usize = 0;
    proof {
        assert(line@.subrange(0, len as int) =~= line@);
        assert(texts(parts@) =~= Seq::<Seq<u8>>::empty());
    }
    loop
        invariant
            len == line@.len(),
            i <= len,
            fields(line@) == texts(parts@) + fields(line@.subrange(i as int, len as int)),
        ensures
            texts(parts@) == fields(line@),
        decreases len - i,
    {
        let a: usize = scan(line, i, false);
        let b: usize = scan(line, a, true);
        let ghost rest = line@.subrange(i as int, len as int);
        proof {
            lemma_run_end_shift(line@, i as int, 0, false);
            lemma_run_end_shift(line@, i as int, a - i, true);
            lemma_run_end(line@, i as int, false);
            lemma_run_end(line@, a as int, true);
        }
        if a >= len {
            proof {
                assert(fields(rest) =~= Seq::<Seq<u8>>::empty());
                assert(texts(parts@) + fields(rest) =~= texts(parts@));
            }
            break;
        }
        let part: Vec<u8> = copy_range(line, a, b);
        let ghost before = texts(parts@);
        parts.push(part);
        proof {
            assert(rest.subrange(a - i, b - i) =~= line@.subrange(a as int, b as int));
            assert(rest.subrange(b - i, rest.len() as int) =~= line@.subrange(b as int, len as int));
            assert(texts(parts@) =~= before.push(line@.subrange(a as int, b as int)));
            assert(before + (seq![line@.subrange(a as int, b as int)] + fields(
                line@.subrange(b as int, len as int),
            )) =~= before.push(line@.subrange(a as int, b as int)) + fields(
                line@.subrange(b as int, len as int),
            ));
        }
        i = b;
    }
    parts
}

/// The lines of a text.
pub fn split_lines(text: &[u8]) -> (parts: Vec<Vec<u8>>)
    ensures
        texts(parts@) == lines(text@),
{
    let len: usize = text.len();
    let mut parts: Vec<Vec<u8>> = Vec::new();
    let mut i: usize = 0;
    proof {
        assert(text@.subrange(0, len as int) =~= text@);
        assert(texts(parts@) =~= Seq::<Seq<u8>>::empty());
    }
    while i < len
        invariant
            len == text@.len(),
            i <= len,
            lines(text@) == texts(parts@) + lines(text@.subrange(i as int, len as int)),
        decreases len - i,
    {
        let e: usize = find_byte(text, i, NEWLINE);
        let ghost rest = text@.subrange(i as int, len as int);
        let ghost before = texts(parts@);
        proof {
            lemma_find_shift(text@, i as int, 0, NEWLINE);
        }
        let part: Vec<u8> = copy_range(text, i, e);
        parts.push(part);
        proof {
            assert(texts(parts@) =~= before.push(text@.subrange(i as int, e as int)));
            assert(rest.subrange(0, e - i) =~= text@.subrange(i as int, e as int));
        }
        if e == len {
            proof {
                assert(rest.subrange(0, e - i) =~= rest);
                assert(text@.subrange(len as int, len as int) =~= Seq::<u8>::empty());
                assert(before + seq![rest] =~= texts(parts@) + lines(
                    text@.subrange(len as int, len as int),
                ));
            }
            i = len;
        } else {
            proof {
                assert(rest.subrange(e - i + 1, rest.len() as int) =~= text@.subrange(
                    e + 1,
                    len as int,
                ));
                assert(before + (seq![text@.subrange(i as int, e as int)] + lines(
                    text@.subrange(e + 1, len as int),
                )) =~= texts(parts@) + lines(text@.subrange(e + 1, len as int)));
            }
            i = e + 1;
        }
    }
    proof {
        assert(text@.subrange(len as int, len as int) =~= Seq::<u8>::empty());
        assert(texts(parts@) + lines(Seq::<u8>::empty()) =~= texts(parts@));
    }
    parts
}

} // verus!
