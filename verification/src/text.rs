//! Splitting text into lines and words, and reading unsigned decimal numbers.
//!
//! Words are the maximal runs of non-separator elements; the separators are
//! ASCII whitespace for byte text and Unicode whitespace for decoded text.
use vstd::prelude::*;

verus! {

// ---------------------------------------------------------------------------
// Runs and words over any element type
// ---------------------------------------------------------------------------

/// Number of leading elements of `s` that are not separators.
pub open spec fn run_len<T>(s: Seq<T>, sep: spec_fn(T) -> bool) -> nat
    decreases s.len(),
{
    if s.len() == 0 || sep(s[0]) {
        0
    } else {
        1 + run_len(s.drop_first(), sep)
    }
}

pub proof fn lemma_run_len_bound<T>(s: Seq<T>, sep: spec_fn(T) -> bool)
    ensures
        run_len(s, sep) <= s.len(),
        s.len() > 0 && !sep(s[0]) ==> run_len(s, sep) >= 1,
    decreases s.len(),
{
    if s.len() > 0 && !sep(s[0]) {
        lemma_run_len_bound(s.drop_first(), sep);
    }
}

/// The maximal runs of non-separator elements of `s`, in order.
pub open spec fn words<T>(s: Seq<T>, sep: spec_fn(T) -> bool) -> Seq<Seq<T>>
    decreases s.len(),
{
    if s.len() == 0 {
        seq![]
    } else if sep(s[0]) {
        words(s.drop_first(), sep)
    } else {
        let k = run_len(s, sep);
        proof {
            lemma_run_len_bound(s, sep);
        }
        seq![s.take(k as int)] + words(s.skip(k as int), sep)
    }
}

/// Every element of `s` that is not a separator ends the run when it is one.
pub proof fn lemma_run_len_step<T>(s: Seq<T>, i: int, sep: spec_fn(T) -> bool)
    requires
        0 <= i < s.len(),
        !sep(s[i]),
    ensures
        run_len(s.skip(i), sep) == 1 + run_len(s.skip(i + 1), sep),
{
    assert(s.skip(i).drop_first() =~= s.skip(i + 1));
}

pub proof fn lemma_run_len_stop<T>(s: Seq<T>, i: int, sep: spec_fn(T) -> bool)
    requires
        0 <= i <= s.len(),
        i == s.len() || sep(s[i]),
    ensures
        run_len(s.skip(i), sep) == 0,
{
}

/// A separator at `i` contributes no word.
pub proof fn lemma_words_sep<T>(s: Seq<T>, i: int, sep: spec_fn(T) -> bool)
    requires
        0 <= i < s.len(),
        sep(s[i]),
    ensures
        words(s.skip(i), sep) == words(s.skip(i + 1), sep),
{
    assert(s.skip(i).drop_first() =~= s.skip(i + 1));
}

/// A run from `start` to `end` is the next word.
pub proof fn lemma_words_word<T>(s: Seq<T>, start: int, end: int, sep: spec_fn(T) -> bool)
    requires
        0 <= start < end <= s.len(),
        !sep(s[start]),
        run_len(s.skip(start), sep) == end - start,
    ensures
        words(s.skip(start), sep) == seq![s.subrange(start, end)] + words(s.skip(end), sep),
{
    let t = s.skip(start);
    assert(t[0] == s[start]);
    assert(t.take(end - start) =~= s.subrange(start, end));
    assert(t.skip(end - start) =~= s.skip(end));
}

/// No word is empty and no word holds a separator.
pub proof fn lemma_words_shape<T>(s: Seq<T>, sep: spec_fn(T) -> bool)
    ensures
        forall|i: int|
            0 <= i < words(s, sep).len() ==> #[trigger] words(s, sep)[i].len() > 0,
        forall|i: int, j: int|
            0 <= i < words(s, sep).len() && 0 <= j < words(s, sep)[i].len() ==> !sep(
                #[trigger] words(s, sep)[i][j],
            ),
    decreases s.len(),
{
    if s.len() == 0 {
    } else if sep(s[0]) {
        lemma_words_shape(s.drop_first(), sep);
        assert(words(s, sep) == words(s.drop_first(), sep));
    } else {
        let k = run_len(s, sep);
        lemma_run_len_bound(s, sep);
        lemma_run_prefix(s, sep);
        assert(s.take(k as int).len() == k);
        lemma_words_shape(s.skip(k as int), sep);
        let w = words(s, sep);
        let rest = words(s.skip(k as int), sep);
        assert(w == seq![s.take(k as int)] + rest);
        assert forall|i: int, j: int| 0 <= i < w.len() && 0 <= j < w[i].len() implies !sep(
            #[trigger] w[i][j],
        ) by {
            if i == 0 {
                assert(w[0] == s.take(k as int));
                assert(w[0][j] == s[j]);
            } else {
                assert(w[i] == rest[i - 1]);
            }
        }
        assert forall|i: int| 0 <= i < w.len() implies #[trigger] w[i].len() > 0 by {
            if i > 0 {
                assert(w[i] == rest[i - 1]);
            }
        }
    }
}

/// The elements of a run are not separators.
pub proof fn lemma_run_prefix<T>(s: Seq<T>, sep: spec_fn(T) -> bool)
    ensures
        forall|j: int| 0 <= j < run_len(s, sep) ==> !sep(#[trigger] s[j]),
    decreases s.len(),
{
    if s.len() > 0 && !sep(s[0]) {
        lemma_run_prefix(s.drop_first(), sep);
        lemma_run_len_bound(s.drop_first(), sep);
        assert forall|j: int| 0 <= j < run_len(s, sep) implies !sep(#[trigger] s[j]) by {
            if j > 0 {
                assert(s[j] == s.drop_first()[j - 1]);
            }
        }
    }
}

/// A word followed by nothing or by a separator is one whole run.
pub proof fn lemma_run_len_of_word<T>(a: Seq<T>, rest: Seq<T>, sep: spec_fn(T) -> bool)
    requires
        forall|i: int| 0 <= i < a.len() ==> !sep(#[trigger] a[i]),
        rest.len() == 0 || sep(rest[0]),
    ensures
        run_len(a + rest, sep) == a.len(),
    decreases a.len(),
{
    if a.len() > 0 {
        assert((a + rest).drop_first() =~= a.drop_first() + rest);
        assert(forall|i: int| 0 <= i < a.drop_first().len() ==> a.drop_first()[i] == a[i + 1]);
        lemma_run_len_of_word(a.drop_first(), rest, sep);
    } else {
        assert(a + rest =~= rest);
    }
}

/// Two words with one separator between them are those two words.
pub proof fn lemma_words_of_two<T>(a: Seq<T>, s: T, b: Seq<T>, sep: spec_fn(T) -> bool)
    requires
        a.len() > 0,
        b.len() > 0,
        forall|i: int| 0 <= i < a.len() ==> !sep(#[trigger] a[i]),
        forall|i: int| 0 <= i < b.len() ==> !sep(#[trigger] b[i]),
        sep(s),
    ensures
        words(a + seq![s] + b, sep) == seq![a, b],
{
    let x = a + seq![s] + b;
    assert(x =~= a + (seq![s] + b));
    lemma_run_len_of_word(a, seq![s] + b, sep);
    assert(x[0] == a[0]);
    assert(x.take(a.len() as int) =~= a);
    assert(x.skip(a.len() as int) =~= seq![s] + b);
    let y = seq![s] + b;
    assert(y.drop_first() =~= b);
    assert(words(y, sep) == words(b, sep));
    lemma_run_len_of_word(b, Seq::<T>::empty(), sep);
    assert(b + Seq::<T>::empty() =~= b);
    assert(b.take(b.len() as int) =~= b);
    assert(b.skip(b.len() as int) =~= Seq::<T>::empty());
    assert(words(b, sep) == seq![b] + words(Seq::<T>::empty(), sep));
    assert(words(b, sep) =~= seq![b]);
    assert(words(x, sep) == seq![a] + words(y, sep));
    assert(seq![a] + seq![b] =~= seq![a, b]);
}

/// Pieces written one after the other with one separator element between
/// each two.
pub open spec fn joined<T>(ws: Seq<Seq<T>>, s: T) -> Seq<T>
    decreases ws.len(),
{
    if ws.len() == 0 {
        seq![]
    } else if ws.len() == 1 {
        ws[0]
    } else {
        ws[0] + seq![s] + joined(ws.drop_first(), s)
    }
}

/// Words written one space apart are read back as those words.
pub proof fn lemma_words_of_joined<T>(ws: Seq<Seq<T>>, s: T, sep: spec_fn(T) -> bool)
    requires
        sep(s),
        forall|i: int| 0 <= i < ws.len() ==> #[trigger] ws[i].len() > 0,
        forall|i: int, j: int|
            0 <= i < ws.len() && 0 <= j < ws[i].len() ==> !sep(#[trigger] ws[i][j]),
    ensures
        words(joined(ws, s), sep) == ws,
    decreases ws.len(),
{
    if ws.len() == 0 {
        assert(words(Seq::<T>::empty(), sep) =~= ws);
    } else if ws.len() == 1 {
        let a = ws[0];
        assert forall|j: int| 0 <= j < a.len() implies !sep(#[trigger] a[j]) by {
            assert(a[j] == ws[0][j]);
        }
        lemma_run_len_of_word(a, Seq::<T>::empty(), sep);
        assert(a + Seq::<T>::empty() =~= a);
        assert(a.take(a.len() as int) =~= a);
        assert(a.skip(a.len() as int) =~= Seq::<T>::empty());
        assert(words(a, sep) == seq![a] + words(Seq::<T>::empty(), sep));
        assert(words(a, sep) =~= ws);
    } else {
        let a = ws[0];
        let rest = ws.drop_first();
        assert forall|i: int, j: int|
            0 <= i < rest.len() && 0 <= j < rest[i].len() implies !sep(#[trigger] rest[i][j]) by {
            assert(rest[i] == ws[i + 1]);
        }
        assert forall|i: int| 0 <= i < rest.len() implies #[trigger] rest[i].len() > 0 by {
            assert(rest[i] == ws[i + 1]);
        }
        lemma_words_of_joined(rest, s, sep);
        let j = joined(rest, s);
        let x = a + seq![s] + j;
        assert forall|k: int| 0 <= k < a.len() implies !sep(#[trigger] a[k]) by {
            assert(a[k] == ws[0][k]);
        }
        assert(x =~= a + (seq![s] + j));
        lemma_run_len_of_word(a, seq![s] + j, sep);
        assert(x[0] == a[0]);
        assert(x.take(a.len() as int) =~= a);
        assert(x.skip(a.len() as int) =~= seq![s] + j);
        assert((seq![s] + j).drop_first() =~= j);
        assert(words(seq![s] + j, sep) == words(j, sep));
        assert(words(x, sep) == seq![a] + words(seq![s] + j, sep));
        assert(seq![a] + rest =~= ws);
    }
}

// ---------------------------------------------------------------------------
// Byte text: ASCII whitespace, lines
// ---------------------------------------------------------------------------

/// ASCII whitespace as `u8::is_ascii_whitespace` has it: space, tab, line
/// feed, form feed and carriage return (not the vertical tab).
pub open spec fn is_ascii_ws(b: u8) -> bool {
    b == 0x20u8 || b == 0x09u8 || b == 0x0Au8 || b == 0x0Cu8 || b == 0x0Du8
}

pub open spec fn ascii_sep() -> spec_fn(u8) -> bool {
    |b: u8| is_ascii_ws(b)
}

pub open spec fn newline_sep() -> spec_fn(u8) -> bool {
    |b: u8| b == 0x0Au8
}

/// The words of byte text, split at ASCII whitespace.
pub open spec fn ascii_words(s: Seq<u8>) -> Seq<Seq<u8>> {
    words(s, ascii_sep())
}

pub fn is_ascii_whitespace(b: u8) -> (r: bool)
    ensures
        r == is_ascii_ws(b),
{
    b == 0x20 || b == 0x09 || b == 0x0A || b == 0x0C || b == 0x0D
}

/// Splits byte text at ASCII whitespace, as `str::split_ascii_whitespace`.
pub fn split_ascii_whitespace(s: &[u8]) -> (r: Vec<Vec<u8>>)
    ensures
        r.deep_view() == ascii_words(s@),
{
    let n = s.len();
    let mut r: Vec<Vec<u8>> = Vec::new();
    let mut i: usize = 0;
    assert(s@.skip(0) =~= s@);
    while i < n
        invariant
            n == s@.len(),
            i <= n,
            words(s@, ascii_sep()) == r.deep_view() + words(s@.skip(i as int), ascii_sep()),
        decreases n - i,
    {
        if is_ascii_whitespace(s[i]) {
            proof {
                lemma_words_sep(s@, i as int, ascii_sep());
            }
            i = i + 1;
        } else {
            let start = i;
            let mut w: Vec<u8> = Vec::new();
            while i < n && !is_ascii_whitespace(s[i])
                invariant
                    n == s@.len(),
                    start <= i <= n,
                    start < n,
                    w@ == s@.subrange(start as int, i as int),
                    run_len(s@.skip(start as int), ascii_sep()) == (i - start) + run_len(
                        s@.skip(i as int),
                        ascii_sep(),
                    ),
                decreases n - i,
            {
                proof {
                    lemma_run_len_step(s@, i as int, ascii_sep());
                }
                w.push(s[i]);
                i = i + 1;
                assert(w@ =~= s@.subrange(start as int, i as int));
            }
            proof {
                lemma_run_len_stop(s@, i as int, ascii_sep());
                lemma_words_word(s@, start as int, i as int, ascii_sep());
            }
            let ghost before = r.deep_view();
            let ghost old_r = r@;
            assert(w.deep_view() =~= w@);
            r.push(w);
            assert(r@ == old_r.push(w));
            assert(r.deep_view() =~= before.push(s@.subrange(start as int, i as int)));
            assert(r.deep_view() + words(s@.skip(i as int), ascii_sep()) =~= before + (seq![
                s@.subrange(start as int, i as int),
            ] + words(s@.skip(i as int), ascii_sep())));
        }
    }
    assert(s@.skip(n as int) =~= Seq::<u8>::empty());
    assert(r.deep_view() + Seq::<Seq<u8>>::empty() =~= r.deep_view());
    r
}

/// A line without the carriage return of a `\r\n` ending.
pub open spec fn strip_cr(l: Seq<u8>) -> Seq<u8> {
    if l.len() > 0 && l.last() == 0x0Du8 {
        l.drop_last()
    } else {
        l
    }
}

/// The lines of byte text, as `str::lines` gives them: split at `\n`, a `\r`
/// just before the `\n` dropped, no empty line after a final line ending.
pub open spec fn text_lines(s: Seq<u8>) -> Seq<Seq<u8>>
    decreases s.len(),
{
    if s.len() == 0 {
        seq![]
    } else {
        let k = run_len(s, newline_sep());
        proof {
            lemma_run_len_bound(s, newline_sep());
        }
        if k == s.len() {
            seq![s]
        } else {
            seq![strip_cr(s.take(k as int))] + text_lines(s.skip((k + 1) as int))
        }
    }
}

proof fn lemma_line_last(s: Seq<u8>, start: int)
    requires
        0 <= start < s.len(),
        run_len(s.skip(start), newline_sep()) == s.len() - start,
    ensures
        text_lines(s.skip(start)) == seq![s.subrange(start, s.len() as int)],
{
    assert(s.skip(start) =~= s.subrange(start, s.len() as int));
}

proof fn lemma_line_next(s: Seq<u8>, start: int, end: int)
    requires
        0 <= start <= end < s.len(),
        s[end] == 0x0Au8,
        run_len(s.skip(start), newline_sep()) == end - start,
    ensures
        text_lines(s.skip(start)) == seq![strip_cr(s.subrange(start, end))] + text_lines(
            s.skip(end + 1),
        ),
{
    let t = s.skip(start);
    assert(t.take(end - start) =~= s.subrange(start, end));
    assert(t.skip(end - start + 1) =~= s.skip(end + 1));
}

/// Splits byte text into lines, as `str::lines`.
pub fn split_lines(s: &[u8]) -> (r: Vec<Vec<u8>>)
    ensures
        r.deep_view() == text_lines(s@),
{
    let n = s.len();
    let mut r: Vec<Vec<u8>> = Vec::new();
    let mut i: usize = 0;
    assert(s@.skip(0) =~= s@);
    while i < n
        invariant
            n == s@.len(),
            i <= n,
            text_lines(s@) == r.deep_view() + text_lines(s@.skip(i as int)),
        decreases n - i,
    {
        let start = i;
        let mut w: Vec<u8> = Vec::new();
        while i < n && s[i] != 0x0A
            invariant
                n == s@.len(),
                start <= i <= n,
                start < n,
                w@ == s@.subrange(start as int, i as int),
                run_len(s@.skip(start as int), newline_sep()) == (i - start) + run_len(
                    s@.skip(i as int),
                    newline_sep(),
                ),
            decreases n - i,
        {
            proof {
                lemma_run_len_step(s@, i as int, newline_sep());
            }
            w.push(s[i]);
            i = i + 1;
            assert(w@ =~= s@.subrange(start as int, i as int));
        }
        proof {
            lemma_run_len_stop(s@, i as int, newline_sep());
        }
        let ghost line: Seq<u8>;
        if i == n {
            proof {
                lemma_line_last(s@, start as int);
                line = w@;
            }
        } else {
            proof {
                lemma_line_next(s@, start as int, i as int);
            }
            let len = w.len();
            if len > 0 && w[len - 1] == 0x0D {
                w.pop();
            }
            proof {
                line = strip_cr(s@.subrange(start as int, i as int));
                assert(w@ =~= line);
            }
            i = i + 1;
        }
        let ghost before = r.deep_view();
        let ghost old_r = r@;
        assert(w.deep_view() =~= w@);
        r.push(w);
        assert(r@ == old_r.push(w));
        assert(r.deep_view() =~= before.push(line));
        assert(r.deep_view() + text_lines(s@.skip(i as int)) =~= before + (seq![line]
            + text_lines(s@.skip(i as int))));
    }
    assert(s@.skip(n as int) =~= Seq::<u8>::empty());
    assert(r.deep_view() + Seq::<Seq<u8>>::empty() =~= r.deep_view());
    r
}

// ---------------------------------------------------------------------------
// Decoded text: Unicode whitespace
// ---------------------------------------------------------------------------

/// The characters with the Unicode `White_Space` property, which
/// `char::is_whitespace` tests.
pub open spec fn is_unicode_ws(c: char) -> bool {
    let u = c as u32;
    (0x09 <= u <= 0x0D) || u == 0x20 || u == 0x85 || u == 0xA0 || u == 0x1680 || (0x2000 <= u
        <= 0x200A) || u == 0x2028 || u == 0x2029 || u == 0x202F || u == 0x205F || u == 0x3000
}

pub open spec fn unicode_sep() -> spec_fn(char) -> bool {
    |c: char| is_unicode_ws(c)
}

/// The words of decoded text, split at Unicode whitespace.
pub open spec fn unicode_words(s: Seq<char>) -> Seq<Seq<char>> {
    words(s, unicode_sep())
}

pub fn is_whitespace(c: char) -> (r: bool)
    ensures
        r == is_unicode_ws(c),
{
    let u = c as u32;
    (0x09 <= u && u <= 0x0D) || u == 0x20 || u == 0x85 || u == 0xA0 || u == 0x1680 || (0x2000
        <= u && u <= 0x200A) || u == 0x2028 || u == 0x2029 || u == 0x202F || u == 0x205F || u
        == 0x3000
}

/// Splits decoded text at Unicode whitespace, as `str::split_whitespace`.
pub fn split_whitespace(s: &[char]) -> (r: Vec<Vec<char>>)
    ensures
        r.deep_view() == unicode_words(s@),
{
    let n = s.len();
    let mut r: Vec<Vec<char>> = Vec::new();
    let mut i: usize = 0;
    assert(s@.skip(0) =~= s@);
    while i < n
        invariant
            n == s@.len(),
            i <= n,
            words(s@, unicode_sep()) == r.deep_view() + words(s@.skip(i as int), unicode_sep()),
        decreases n - i,
    {
        if is_whitespace(s[i]) {
            proof {
                lemma_words_sep(s@, i as int, unicode_sep());
            }
            i = i + 1;
        } else {
            let start = i;
            let mut w: Vec<char> = Vec::new();
            while i < n && !is_whitespace(s[i])
                invariant
                    n == s@.len(),
                    start <= i <= n,
                    start < n,
                    w@ == s@.subrange(start as int, i as int),
                    run_len(s@.skip(start as int), unicode_sep()) == (i - start) + run_len(
                        s@.skip(i as int),
                        unicode_sep(),
                    ),
                decreases n - i,
            {
                proof {
                    lemma_run_len_step(s@, i as int, unicode_sep());
                }
                w.push(s[i]);
                i = i + 1;
                assert(w@ =~= s@.subrange(start as int, i as int));
            }
            proof {
                lemma_run_len_stop(s@, i as int, unicode_sep());
                lemma_words_word(s@, start as int, i as int, unicode_sep());
            }
            let ghost before = r.deep_view();
            let ghost old_r = r@;
            assert(w.deep_view() =~= w@);
            r.push(w);
            assert(r@ == old_r.push(w));
            assert(r.deep_view() =~= before.push(s@.subrange(start as int, i as int)));
            assert(r.deep_view() + words(s@.skip(i as int), unicode_sep()) =~= before + (seq![
                s@.subrange(start as int, i as int),
            ] + words(s@.skip(i as int), unicode_sep())));
        }
    }
    assert(s@.skip(n as int) =~= Seq::<char>::empty());
    assert(r.deep_view() + Seq::<Seq<char>>::empty() =~= r.deep_view());
    r
}

// ---------------------------------------------------------------------------
// Unsigned decimal numbers
// ---------------------------------------------------------------------------

/// Whether a character code is an ASCII decimal digit.
pub open spec fn is_digit_code(c: int) -> bool {
    48 <= c <= 57
}

/// The value of a string of decimal digit codes, most significant first.
pub open spec fn digits_value(d: Seq<int>) -> nat
    decreases d.len(),
{
    if d.len() == 0 {
        0
    } else {
        digits_value(d.drop_last()) * 10 + (d.last() - 48) as nat
    }
}

/// The digits of an unsigned number: the text after an optional leading `+`.
pub open spec fn unsigned_digits(s: Seq<int>) -> Seq<int> {
    if s.len() > 0 && s[0] == 43 {
        s.drop_first()
    } else {
        s
    }
}

/// What `str::parse` gives for an unsigned integer type whose largest value
/// is `max`: an optional `+`, then one or more ASCII digits whose value is at
/// most `max`; anything else is an error.
pub open spec fn parse_unsigned(s: Seq<int>, max: nat) -> Option<nat> {
    let d = unsigned_digits(s);
    if d.len() > 0 && (forall|i: int| 0 <= i < d.len() ==> is_digit_code(#[trigger] d[i]))
        && digits_value(d) <= max {
        Some(digits_value(d))
    } else {
        None
    }
}

pub open spec fn byte_codes(s: Seq<u8>) -> Seq<int> {
    s.map_values(|b: u8| b as int)
}

pub open spec fn char_codes(s: Seq<char>) -> Seq<int> {
    s.map_values(|c: char| (c as u32) as int)
}

pub open spec fn code_values(s: Seq<u32>) -> Seq<int> {
    s.map_values(|c: u32| c as int)
}

/// Appending a digit never makes the value smaller.
pub proof fn lemma_digits_value_push(d: Seq<int>, c: int)
    requires
        is_digit_code(c),
    ensures
        digits_value(d.push(c)) == digits_value(d) * 10 + (c - 48),
        digits_value(d.push(c)) >= digits_value(d),
{
    assert(d.push(c).drop_last() =~= d);
}

/// A string of digits is worth at least any of its prefixes.
pub proof fn lemma_digits_value_prefix(d: Seq<int>, k: int)
    requires
        0 <= k <= d.len(),
        forall|i: int| 0 <= i < d.len() ==> is_digit_code(#[trigger] d[i]),
    ensures
        digits_value(d.take(k)) <= digits_value(d),
    decreases d.len() - k,
{
    if k < d.len() {
        lemma_digits_value_push(d.take(k), d[k]);
        assert(d.take(k).push(d[k]) =~= d.take(k + 1));
        lemma_digits_value_prefix(d, k + 1);
    } else {
        assert(d.take(k) =~= d);
    }
}

/// Reads an unsigned decimal number of at most `max` from character codes,
/// the `+` and digit rules of `str::parse`.
fn parse_codes(s: &Vec<u32>, max: u64) -> (r: Option<u64>)
    requires
        max < 0x1_0000_0000,
    ensures
        match r {
            Some(v) => parse_unsigned(code_values(s@), max as nat) == Some(
                v as nat,
            ),
            None => parse_unsigned(code_values(s@), max as nat) is None,
        },
{
    let ghost codes = code_values(s@);
    let n = s.len();
    let mut i: usize = 0;
    if n > 0 && s[0] == 43 {
        i = 1;
    }
    let first = i;
    let ghost d = unsigned_digits(codes);
    assert(d =~= codes.skip(first as int));
    if first == n {
        return None;
    }
    let mut acc: u64 = 0;
    while i < n
        invariant
            n == s@.len(),
            codes == code_values(s@),
            d == codes.skip(first as int),
            d == unsigned_digits(codes),
            first <= i <= n,
            first < n,
            max < 0x1_0000_0000,
            acc <= max,
            forall|j: int| 0 <= j < i - first ==> is_digit_code(#[trigger] d[j]),
            acc as nat == digits_value(d.take(i - first)),
        decreases n - i,
    {
        let c = s[i];
        assert(d[i - first] == c as int);
        if c < 48 || c > 57 {
            assert(!is_digit_code(d[i - first]));
            return None;
        }
        proof {
            lemma_digits_value_push(d.take(i - first), c as int);
            assert(d.take(i - first).push(c as int) =~= d.take(i + 1 - first));
        }
        acc = acc * 10 + (c - 48) as u64;
        i = i + 1;
        if acc > max {
            proof {
                if forall|j: int| 0 <= j < d.len() ==> is_digit_code(#[trigger] d[j]) {
                    lemma_digits_value_prefix(d, i - first);
                }
            }
            return None;
        }
    }
    assert(d.take(n - first) =~= d);
    Some(acc)
}

/// Reads an unsigned decimal number of at most `max` from bytes, as
/// `str::parse` reads `u32` or `u16` text.
pub fn parse_unsigned_bytes(s: &[u8], max: u64) -> (r: Option<u64>)
    requires
        max < 0x1_0000_0000,
    ensures
        match r {
            Some(v) => parse_unsigned(byte_codes(s@), max as nat) == Some(v as nat),
            None => parse_unsigned(byte_codes(s@), max as nat) is None,
        },
{
    let mut codes: Vec<u32> = Vec::new();
    let mut i: usize = 0;
    while i < s.len()
        invariant
            i <= s@.len(),
            codes@.len() == i,
            forall|j: int| 0 <= j < i ==> codes@[j] as int == s@[j] as int,
        decreases s.len() - i,
    {
        codes.push(s[i] as u32);
        i = i + 1;
    }
    assert(code_values(codes@) =~= byte_codes(s@));
    parse_codes(&codes, max)
}

/// Reads an unsigned decimal number of at most `max` from characters, as
/// `str::parse` reads `u32` or `u16` text.
pub fn parse_unsigned_chars(s: &[char], max: u64) -> (r: Option<u64>)
    requires
        max < 0x1_0000_0000,
    ensures
        match r {
            Some(v) => parse_unsigned(char_codes(s@), max as nat) == Some(v as nat),
            None => parse_unsigned(char_codes(s@), max as nat) is None,
        },
{
    let mut codes: Vec<u32> = Vec::new();
    let mut i: usize = 0;
    while i < s.len()
        invariant
            i <= s@.len(),
            codes@.len() == i,
            forall|j: int| 0 <= j < i ==> codes@[j] == s@[j] as u32,
        decreases s.len() - i,
    {
        codes.push(s[i] as u32);
        i = i + 1;
    }
    assert(code_values(codes@) =~= char_codes(s@));
    parse_codes(&codes, max)
}

/// Lines written with a newline between each two are read back as those
/// lines, provided that no line holds a newline, none but the last ends with
/// a carriage return, and the last is not empty.
pub proof fn lemma_lines_of_joined(ls: Seq<Seq<u8>>)
    requires
        ls.len() > 0 ==> ls.last().len() > 0,
        forall|i: int, j: int| 0 <= i < ls.len() && 0 <= j < ls[i].len() ==> #[trigger] ls[i][j]
            != 0x0Au8,
        forall|i: int| 0 <= i < ls.len() - 1 ==> strip_cr(#[trigger] ls[i]) == ls[i],
    ensures
        text_lines(joined(ls, 0x0Au8)) == ls,
    decreases ls.len(),
{
    if ls.len() == 0 {
        assert(text_lines(Seq::<u8>::empty()) =~= ls);
    } else {
        let a = ls[0];
        assert forall|k: int| 0 <= k < a.len() implies !newline_sep()(#[trigger] a[k]) by {
            assert(a[k] == ls[0][k]);
        }
        if ls.len() == 1 {
            lemma_run_len_of_word(a, Seq::<u8>::empty(), newline_sep());
            assert(a + Seq::<u8>::empty() =~= a);
            assert(text_lines(a) =~= ls);
        } else {
            let rest = ls.drop_first();
            assert forall|i: int, j: int|
                0 <= i < rest.len() && 0 <= j < rest[i].len() implies #[trigger] rest[i][j]
                != 0x0Au8 by {
                assert(rest[i] == ls[i + 1]);
            }
            assert forall|i: int| 0 <= i < rest.len() - 1 implies strip_cr(#[trigger] rest[i])
                == rest[i] by {
                assert(rest[i] == ls[i + 1]);
            }
            assert(rest.last() == ls.last());
            lemma_lines_of_joined(rest);
            let j = joined(rest, 0x0Au8);
            let x = a + seq![0x0Au8] + j;
            assert(x =~= a + (seq![0x0Au8] + j));
            lemma_run_len_of_word(a, seq![0x0Au8] + j, newline_sep());
            assert(x.take(a.len() as int) =~= a);
            assert(x.skip(a.len() + 1int) =~= j);
            assert(strip_cr(a) == a);
            assert(text_lines(x) == seq![a] + text_lines(j));
            assert(seq![a] + rest =~= ls);
        }
    }
}

/// A line ends at the first newline, and a carriage return just before that
/// newline is not part of it; what follows the newline is read on its own.
pub proof fn lemma_line_at_newline(a: Seq<u8>, rest: Seq<u8>)
    requires
        forall|i: int| 0 <= i < a.len() ==> #[trigger] a[i] != 0x0Au8,
    ensures
        text_lines(a + seq![0x0Au8] + rest) == seq![strip_cr(a)] + text_lines(rest),
        a.len() > 0 && a.last() == 0x0Du8 ==> text_lines(a + seq![0x0Au8] + rest) == seq![
            a.drop_last(),
        ] + text_lines(rest),
        a.len() == 0 || a.last() != 0x0Du8 ==> text_lines(a + seq![0x0Au8] + rest) == seq![a]
            + text_lines(rest),
{
    let x = a + seq![0x0Au8] + rest;
    assert(x =~= a + (seq![0x0Au8] + rest));
    lemma_run_len_of_word(a, seq![0x0Au8] + rest, newline_sep());
    assert(x.take(a.len() as int) =~= a);
    assert(x.skip(a.len() + 1int) =~= rest);
}

/// Text with no newline is one line, kept whole (a final carriage return
/// included); empty text has no lines.
pub proof fn lemma_last_line(a: Seq<u8>)
    requires
        forall|i: int| 0 <= i < a.len() ==> #[trigger] a[i] != 0x0Au8,
    ensures
        a.len() > 0 ==> text_lines(a) == seq![a],
        a.len() == 0 ==> text_lines(a) == Seq::<Seq<u8>>::empty(),
{
    if a.len() > 0 {
        lemma_run_len_of_word(a, Seq::<u8>::empty(), newline_sep());
        assert(a + Seq::<u8>::empty() =~= a);
    }
}

/// A string of ASCII digits whose value is at most `max` is read as its
/// value, with or without a leading `+`.
pub proof fn lemma_parse_digits(d: Seq<int>, max: nat)
    requires
        d.len() > 0,
        forall|i: int| 0 <= i < d.len() ==> is_digit_code(#[trigger] d[i]),
        digits_value(d) <= max,
    ensures
        parse_unsigned(d, max) == Some(digits_value(d)),
        parse_unsigned(seq![43int] + d, max) == Some(digits_value(d)),
{
    assert(!(d[0] == 43));
    let p = seq![43int] + d;
    assert(p.drop_first() =~= d);
}

/// A number is refused when it is empty, when it is a lone `+`, when a
/// character after the optional `+` is not an ASCII digit, or when its value
/// is above `max`; a value that is read is at most `max`.
pub proof fn lemma_parse_refuses(s: Seq<int>, max: nat)
    ensures
        s.len() == 0 ==> parse_unsigned(s, max) is None,
        s == seq![43int] ==> parse_unsigned(s, max) is None,
        (exists|i: int|
            0 <= i < s.len() && !is_digit_code(#[trigger] s[i]) && !(i == 0 && s[i] == 43))
            ==> parse_unsigned(s, max) is None,
        parse_unsigned(s, max) matches Some(v) ==> v <= max,
        (s.len() > 0 && s[0] == 45) ==> parse_unsigned(s, max) is None,
{
    if exists|i: int| 0 <= i < s.len() && !is_digit_code(#[trigger] s[i]) && !(i == 0 && s[i]
        == 43) {
        let i = choose|i: int|
            0 <= i < s.len() && !is_digit_code(#[trigger] s[i]) && !(i == 0 && s[i] == 43);
        let d = unsigned_digits(s);
        if s.len() > 0 && s[0] == 43 {
            assert(d[i - 1] == s[i]);
        } else {
            assert(d[i] == s[i]);
        }
    }
    if s == seq![43int] {
        assert(unsigned_digits(s).len() == 0);
    }
}

} // verus!
