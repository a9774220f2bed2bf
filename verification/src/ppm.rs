//! Reading a binary PPM (`P6`) texture: a `P6` line, a line with the width
//! and height, a line with the largest channel value, then the pixel bytes.
use vstd::prelude::*;
use vstd::utf8::{
    decode_utf8, encode_utf8, encode_utf8_decode_utf8, encode_utf8_valid_utf8, is_ascii_chars,
    is_ascii_chars_encode_utf8, valid_utf8,
};
use crate::error::LoadError;
use crate::obj::u32_max;
use crate::text::{
    char_codes, digits_value, is_digit_code, is_unicode_ws, lemma_run_len_step, lemma_run_len_stop,
    lemma_words_of_two, newline_sep, parse_unsigned, parse_unsigned_chars, run_len, split_whitespace,
    unicode_sep, unicode_words, unsigned_digits,
};

verus! {

/// A decoded texture: `width * height` pixels of three bytes each.
pub struct PpmImage {
    pub pixels: Vec<u8>,
    pub width: u32,
    pub height: u32,
}

/// The position of the first newline at or after `from`, or the length of
/// `s` when there is none.
pub open spec fn next_newline(s: Seq<u8>, from: int) -> int {
    from + run_len(s.skip(from), newline_sep())
}

/// The value of a decoded word read as a `u32`.
pub open spec fn word_value(w: Seq<char>) -> Option<nat> {
    parse_unsigned(char_codes(w), u32_max())
}

/// The width and height that the size line gives: the line is UTF-8, every
/// whitespace-separated word of it is a `u32`, the first word is the width
/// and the second the height (0 where a word is missing, further words are
/// not used).
pub open spec fn size_line(line: Seq<u8>) -> Option<(u32, u32)> {
    if !valid_utf8(line) {
        None
    } else {
        let ws = unicode_words(decode_utf8(line));
        if forall|i: int| 0 <= i < ws.len() ==> #[trigger] word_value(ws[i]) is Some {
            Some(
                (
                    if ws.len() > 0 {
                        word_value(ws[0]).unwrap() as u32
                    } else {
                        0
                    },
                    if ws.len() > 1 {
                        word_value(ws[1]).unwrap() as u32
                    } else {
                        0
                    },
                ),
            )
        } else {
            None
        }
    }
}

/// Whether the third line is a largest channel value the viewer accepts:
/// the whole line is a `u16` from 1 to 255.
pub open spec fn max_value_ok(line: Seq<u8>) -> bool {
    valid_utf8(line) && match parse_unsigned(char_codes(decode_utf8(line)), 0xFFFFnat) {
        Some(v) => 1 <= v <= 255,
        None => false,
    }
}

/// How many pixel bytes the viewer reads: `width * height * 3`, but at least
/// one, since it takes a byte before it compares the count.
pub open spec fn pixel_count(w: u32, h: u32) -> nat {
    if w * h * 3 == 0 {
        1
    } else {
        (w * h * 3) as nat
    }
}

/// Where the texture's pixel data starts and its size, from the three
/// header lines. `Ok(None)` when the data ends before the third line ends;
/// an error for the first header line that is wrong.
pub open spec fn ppm_layout(s: Seq<u8>) -> Result<Option<(int, u32, u32)>, LoadError> {
    let p0 = next_newline(s, 0);
    if p0 >= s.len() {
        Ok(None)
    } else if s.take(p0) != seq![0x50u8, 0x36u8] {
        Err(LoadError::PpmMagic)
    } else {
        let p1 = next_newline(s, p0 + 1);
        if p1 >= s.len() {
            Ok(None)
        } else {
            match size_line(s.subrange(p0 + 1, p1)) {
                None => Err(LoadError::PpmSize),
                Some((w, h)) => {
                    let p2 = next_newline(s, p1 + 1);
                    if p2 >= s.len() {
                        Ok(None)
                    } else if !max_value_ok(s.subrange(p1 + 1, p2)) {
                        Err(LoadError::PpmMaxValue)
                    } else {
                        Ok(Some((p2 + 1, w, h)))
                    }
                },
            }
        }
    }
}

/// Whether the pixel data holds all the bytes that the viewer reads; it
/// reads past the end of a shorter texture and stops.
pub open spec fn ppm_fits(s: Seq<u8>) -> bool {
    match ppm_layout(s) {
        Ok(Some((start, w, h))) => start + pixel_count(w, h) <= s.len(),
        _ => true,
    }
}

/// The decoded texture: its pixel bytes, width and height. A texture whose
/// header ends early is empty, 0 by 0.
pub open spec fn ppm_decoded(s: Seq<u8>) -> Result<(Seq<u8>, u32, u32), LoadError> {
    match ppm_layout(s) {
        Err(e) => Err(e),
        Ok(None) => Ok((seq![], 0u32, 0u32)),
        Ok(Some((start, w, h))) => Ok((s.subrange(start, start + pixel_count(w, h)), w, h)),
    }
}

/// `std::str::from_utf8`: the characters that the bytes encode when they
/// are valid UTF-8, nothing when they are not. The contract states the
/// documented behaviour over vstd's definitions of UTF-8 validity and
/// decoding.
#[verifier::external_body]
fn utf8_chars(bytes: &[u8]) -> (r: Option<Vec<char>>)
    ensures
        r is Some <==> valid_utf8(bytes@),
        r matches Some(cs) ==> cs@ == decode_utf8(bytes@),
{
    match std::str::from_utf8(bytes) {
        Ok(s) => Some(s.chars().collect()),
        Err(_) => None,
    }
}

/// Finds the first newline at or after `from`.
fn find_newline(s: &[u8], from: usize) -> (r: usize)
    requires
        from <= s@.len(),
    ensures
        r == next_newline(s@, from as int),
        from <= r <= s@.len(),
        r < s@.len() ==> s@[r as int] == 0x0Au8,
{
    let mut i = from;
    while i < s.len() && s[i] != 0x0A
        invariant
            from <= i <= s@.len(),
            run_len(s@.skip(from as int), newline_sep()) == (i - from) + run_len(
                s@.skip(i as int),
                newline_sep(),
            ),
        decreases s@.len() - i,
    {
        proof {
            lemma_run_len_step(s@, i as int, newline_sep());
        }
        i = i + 1;
    }
    proof {
        lemma_run_len_stop(s@, i as int, newline_sep());
    }
    i
}

/// Copies `s[from..to]`.
fn copy_range(s: &[u8], from: usize, to: usize) -> (r: Vec<u8>)
    requires
        from <= to <= s@.len(),
    ensures
        r@ == s@.subrange(from as int, to as int),
{
    let mut r: Vec<u8> = Vec::new();
    let mut i = from;
    while i < to
        invariant
            from <= i <= to <= s@.len(),
            r@ == s@.subrange(from as int, i as int),
        decreases to - i,
    {
        r.push(s[i]);
        i = i + 1;
        assert(r@ =~= s@.subrange(from as int, i as int));
    }
    r
}

/// Reads the size line of a texture.
pub fn read_size_line(line: &[u8]) -> (r: Option<(u32, u32)>)
    ensures
        r == size_line(line@),
{
    let chars = match utf8_chars(line) {
        Some(cs) => cs,
        None => {
            return None;
        },
    };
    let ws = split_whitespace(chars.as_slice());
    let ghost wv = ws.deep_view();
    let mut width: u32 = 0;
    let mut height: u32 = 0;
    let mut j: usize = 0;
    while j < ws.len()
        invariant
            wv == ws.deep_view(),
            wv == unicode_words(decode_utf8(line@)),
            j <= wv.len(),
            forall|i: int| 0 <= i < j ==> #[trigger] word_value(wv[i]) is Some,
            width == (if j > 0 {
                word_value(wv[0]).unwrap() as u32
            } else {
                0
            }),
            height == (if j > 1 {
                word_value(wv[1]).unwrap() as u32
            } else {
                0
            }),
        decreases wv.len() - j,
    {
        let w = &ws[j];
        assert(w@ =~= wv[j as int]);
        match parse_unsigned_chars(w.as_slice(), 0xFFFF_FFFF) {
            Some(v) => {
                if j == 0 {
                    width = v as u32;
                } else if j == 1 {
                    height = v as u32;
                }
            },
            None => {
                assert(word_value(wv[j as int]) is None);
                return None;
            },
        }
        j = j + 1;
    }
    Some((width, height))
}

/// Checks the line with the largest channel value.
pub fn read_max_value_line(line: &[u8]) -> (r: bool)
    ensures
        r == max_value_ok(line@),
{
    match utf8_chars(line) {
        None => false,
        Some(cs) => match parse_unsigned_chars(cs.as_slice(), 0xFFFF) {
            Some(v) => 1 <= v && v <= 255,
            None => false,
        },
    }
}

/// The number of pixel bytes read for a size, computed without overflow.
fn pixel_count_exec(w: u32, h: u32) -> (r: u128)
    ensures
        r == pixel_count(w, h),
        r <= 0x3_0000_0000_0000_0000u128,
{
    assert((w as u128) * (h as u128) <= 0xFFFF_FFFF * 0xFFFF_FFFFu128) by (nonlinear_arith);
    let total = (w as u128) * (h as u128) * 3;
    assert(total == w * h * 3);
    if total == 0 {
        1
    } else {
        total
    }
}

/// Reads the three header lines of a texture.
fn layout(s: &[u8]) -> (r: Result<Option<(usize, u32, u32)>, LoadError>)
    ensures
        match r {
            Ok(Some((start, w, h))) => ppm_layout(s@) == Ok::<Option<(int, u32, u32)>, LoadError>(
                Some((start as int, w, h)),
            ) && start <= s@.len(),
            Ok(None) => ppm_layout(s@) == Ok::<Option<(int, u32, u32)>, LoadError>(None),
            Err(e) => ppm_layout(s@) == Err::<Option<(int, u32, u32)>, LoadError>(e),
        },
{
    let n = s.len();
    let p0 = find_newline(s, 0);
    if p0 >= n {
        return Ok(None);
    }
    if !(p0 == 2 && s[0] == 0x50 && s[1] == 0x36) {
        proof {
            let magic = seq![0x50u8, 0x36u8];
            assert(magic.len() == 2 && magic[0] == 0x50u8 && magic[1] == 0x36u8);
            if s@.take(p0 as int) == magic {
                assert(p0 == 2);
                assert(s@.take(p0 as int)[0] == s@[0]);
                assert(s@.take(p0 as int)[1] == s@[1]);
            }
        }
        return Err(LoadError::PpmMagic);
    }
    assert(s@.take(p0 as int) =~= seq![0x50u8, 0x36u8]);
    let p1 = find_newline(s, p0 + 1);
    if p1 >= n {
        return Ok(None);
    }
    let size_bytes = copy_range(s, p0 + 1, p1);
    let (w, h) = match read_size_line(size_bytes.as_slice()) {
        Some(wh) => wh,
        None => {
            return Err(LoadError::PpmSize);
        },
    };
    let p2 = find_newline(s, p1 + 1);
    if p2 >= n {
        return Ok(None);
    }
    let max_bytes = copy_range(s, p1 + 1, p2);
    if !read_max_value_line(max_bytes.as_slice()) {
        return Err(LoadError::PpmMaxValue);
    }
    Ok(Some((p2 + 1, w, h)))
}

/// Whether a texture holds all the pixel bytes that decoding reads.
pub fn ppm_pixels_available(s: &[u8]) -> (r: bool)
    ensures
        r == ppm_fits(s@),
        ppm_layout(s@) matches Ok(Some((start, w, h))) ==> (r <==> start + (if w * h == 0 {
            1
        } else {
            w * h * 3
        }) <= s@.len()),
{
    proof {
        lemma_fits_counts_width_times_height(s@);
    }
    match layout(s) {
        Ok(Some((start, w, h))) => (start as u128) + pixel_count_exec(w, h) <= s.len() as u128,
        _ => true,
    }
}

/// Decodes a texture: the header checks in order, then the pixel bytes that
/// follow the third line.
pub fn decode_ppm(s: &[u8]) -> (r: Result<PpmImage, LoadError>)
    requires
        ppm_fits(s@),
    ensures
        match r {
            Ok(img) => ppm_decoded(s@) == Ok::<(Seq<u8>, u32, u32), LoadError>(
                (img.pixels@, img.width, img.height),
            ),
            Err(e) => ppm_decoded(s@) == Err::<(Seq<u8>, u32, u32), LoadError>(e),
        },
        r matches Ok(img) ==> (img.width * img.height > 0 ==> img.pixels@.len() == img.width
            * img.height * 3),
        r matches Ok(img) ==> (img.width * img.height == 0 ==> img.pixels@.len() <= 1),
{
    proof {
        lemma_decoded_pixel_len(s@);
    }
    match layout(s) {
        Err(e) => Err(e),
        Ok(None) => {
            let pixels: Vec<u8> = Vec::new();
            assert(pixels@ =~= Seq::<u8>::empty());
            Ok(PpmImage { pixels, width: 0, height: 0 })
        },
        Ok(Some((start, w, h))) => {
            let count = pixel_count_exec(w, h);
            let avail = s.len() - start;
            assert(count <= avail as u128);
            let end = start + (count as usize);
            let pixels = copy_range(s, start, end);
            Ok(PpmImage { pixels, width: w, height: h })
        },
    }
}

/// A non-empty string of ASCII decimal digits.
pub open spec fn digit_chars(d: Seq<char>) -> bool {
    d.len() > 0 && forall|i: int| 0 <= i < d.len() ==> '0' <= #[trigger] d[i] <= '9'
}

/// The value of a string of decimal digits.
pub open spec fn digit_chars_value(d: Seq<char>) -> nat {
    digits_value(char_codes(d))
}

/// A texture as a writer lays it out: `P6`, a line with the width digits, a
/// space and the height digits, a line `255`, then the pixel bytes.
pub open spec fn written_ppm(wd: Seq<char>, hd: Seq<char>, pixels: Seq<u8>) -> Seq<u8> {
    seq![0x50u8, 0x36u8, 0x0Au8] + encode_utf8(wd + seq![' '] + hd) + seq![
        0x0Au8,
        0x32u8,
        0x35u8,
        0x35u8,
        0x0Au8,
    ] + pixels
}

proof fn lemma_next_newline_at(s: Seq<u8>, from: int, to: int)
    requires
        0 <= from <= to < s.len(),
        s[to] == 0x0Au8,
        forall|i: int| from <= i < to ==> s[i] != 0x0Au8,
    ensures
        next_newline(s, from) == to,
    decreases to - from,
{
    if from < to {
        lemma_run_len_step(s, from, newline_sep());
        lemma_next_newline_at(s, from + 1, to);
    } else {
        lemma_run_len_stop(s, to, newline_sep());
    }
}

proof fn lemma_digit_word_value(d: Seq<char>)
    requires
        digit_chars(d),
        digit_chars_value(d) <= u32_max(),
    ensures
        word_value(d) == Some(digit_chars_value(d)),
        forall|i: int| 0 <= i < d.len() ==> !is_unicode_ws(#[trigger] d[i]),
{
    let c = char_codes(d);
    assert(unsigned_digits(c) == c);
    assert forall|i: int| 0 <= i < c.len() implies is_digit_code(#[trigger] c[i]) by {
        assert('0' <= d[i] <= '9');
    }
}

proof fn lemma_ascii_digit_bytes(d: Seq<char>)
    requires
        d.len() > 0,
        forall|i: int| 0 <= i < d.len() ==> ('0' <= #[trigger] d[i] <= '9' || d[i] == ' '),
    ensures
        encode_utf8(d).len() == d.len(),
        forall|i: int| 0 <= i < d.len() ==> #[trigger] encode_utf8(d)[i] != 0x0Au8,
{
    assert(is_ascii_chars(d));
    is_ascii_chars_encode_utf8(d);
    assert forall|i: int| 0 <= i < d.len() implies #[trigger] encode_utf8(d)[i] != 0x0Au8 by {
        let c = d[i];
        assert(c as u8 == encode_utf8(d)[i]);
        assert(('0' <= c <= '9' || c == ' ') ==> c as u8 != 0x0Au8);
    }
}

/// A texture laid out by a writer — `P6`, the width and height digits, the
/// largest value 255 and exactly as many pixel bytes as the viewer reads —
/// decodes to those pixel bytes, that width and that height.
pub proof fn lemma_written_ppm_decodes(wd: Seq<char>, hd: Seq<char>, pixels: Seq<u8>)
    requires
        digit_chars(wd),
        digit_chars(hd),
        digit_chars_value(wd) <= u32_max(),
        digit_chars_value(hd) <= u32_max(),
        pixels.len() == pixel_count(digit_chars_value(wd) as u32, digit_chars_value(hd) as u32),
    ensures
        ppm_fits(written_ppm(wd, hd, pixels)),
        ppm_decoded(written_ppm(wd, hd, pixels)) == Ok::<(Seq<u8>, u32, u32), LoadError>(
            (pixels, digit_chars_value(wd) as u32, digit_chars_value(hd) as u32),
        ),
{
    let w = digit_chars_value(wd) as u32;
    let h = digit_chars_value(hd) as u32;
    let line = wd + seq![' '] + hd;
    let e = encode_utf8(line);
    let s = written_ppm(wd, hd, pixels);
    assert forall|i: int| 0 <= i < line.len() implies ('0' <= #[trigger] line[i] <= '9' || line[i]
        == ' ') by {
        if i < wd.len() {
            assert(line[i] == wd[i]);
        } else if i > wd.len() {
            assert(line[i] == hd[i - wd.len() - 1]);
        }
    }
    lemma_ascii_digit_bytes(line);
    let n = e.len() as int;
    assert(n == wd.len() + 1 + hd.len());
    // The three newlines.
    assert(s[2] == 0x0Au8);
    lemma_next_newline_at(s, 0, 2);
    assert forall|i: int| 3 <= i < 3 + n implies s[i] != 0x0Au8 by {
        assert(s[i] == e[i - 3]);
    }
    assert(s[3 + n] == 0x0Au8);
    lemma_next_newline_at(s, 3, 3 + n);
    assert(s[3 + n + 4] == 0x0Au8);
    lemma_next_newline_at(s, 3 + n + 1, 3 + n + 4);
    // The magic line.
    assert(s.take(2) =~= seq![0x50u8, 0x36u8]);
    // The size line.
    assert(s.subrange(3, 3 + n) =~= e);
    encode_utf8_valid_utf8(line);
    encode_utf8_decode_utf8(line);
    lemma_digit_word_value(wd);
    lemma_digit_word_value(hd);
    assert(is_unicode_ws(' '));
    lemma_words_of_two(wd, ' ', hd, unicode_sep());
    let ws = unicode_words(decode_utf8(e));
    assert(ws == seq![wd, hd]);
    assert(ws[0] == wd && ws[1] == hd);
    assert(size_line(e) == Some((w, h)));
    // The largest value line.
    let m = seq!['2', '5', '5'];
    assert(is_ascii_chars(m));
    is_ascii_chars_encode_utf8(m);
    assert(encode_utf8(m) =~= seq![0x32u8, 0x35u8, 0x35u8]);
    assert(s.subrange(3 + n + 1, 3 + n + 4) =~= encode_utf8(m));
    encode_utf8_valid_utf8(m);
    encode_utf8_decode_utf8(m);
    let mc = char_codes(m);
    assert(mc =~= seq![50int, 53int, 53int]);
    assert(unsigned_digits(mc) == mc);
    let m1 = seq![50int];
    let m2 = seq![50int, 53int];
    assert(m1.drop_last() =~= Seq::<int>::empty());
    assert(digits_value(Seq::<int>::empty()) == 0);
    assert(m1.last() == 50);
    assert(digits_value(m1) == 2);
    assert(m2.last() == 53);
    assert(mc.last() == 53);
    assert(m2.drop_last() =~= m1);
    assert(digits_value(m2) == 25);
    assert(mc.drop_last() =~= m2);
    assert(digits_value(mc) == 255);
    assert(max_value_ok(s.subrange(3 + n + 1, 3 + n + 4)));
    // The pixels.
    assert(s.subrange(3 + n + 5, 3 + n + 5 + pixels.len()) =~= pixels);
}

/// The decoded pixel bytes number `width * height * 3`; a texture with no
/// pixels still yields the one byte that is read before the count is
/// compared (or none, when the header ends early). This holds of every
/// texture that has the pixel bytes that are read.
pub proof fn lemma_decoded_pixel_len(s: Seq<u8>)
    requires
        ppm_fits(s),
    ensures
        ppm_decoded(s) matches Ok((px, w, h)) ==> (w * h > 0 ==> px.len() == w * h * 3),
        ppm_decoded(s) matches Ok((px, w, h)) ==> (w * h == 0 ==> px.len() <= 1),
{
    match ppm_layout(s) {
        Ok(Some((start, w, h))) => {
            assert(w * h == 0 <==> w * h * 3 == 0);
            assert(0 <= start);
            let px = s.subrange(start, start + pixel_count(w, h));
            assert(px.len() == pixel_count(w, h));
        },
        _ => {},
    }
}

/// A texture has enough pixel data exactly when `width * height * 3` bytes
/// (one byte when that is zero) follow its header.
pub proof fn lemma_fits_counts_width_times_height(s: Seq<u8>)
    ensures
        ppm_layout(s) matches Ok(Some((start, w, h))) ==> (ppm_fits(s) <==> start + (if w * h
            == 0 {
            1
        } else {
            w * h * 3
        }) <= s.len()),
        !(ppm_layout(s) matches Ok(Some(_))) ==> ppm_fits(s),
{
    match ppm_layout(s) {
        Ok(Some((start, w, h))) => {
            assert(w * h == 0 <==> w * h * 3 == 0);
        },
        _ => {},
    }
}

/// A texture with no newline has an unfinished header: it decodes to no
/// pixels, 0 by 0.
pub proof fn lemma_no_newline_is_empty(s: Seq<u8>)
    requires
        forall|i: int| 0 <= i < s.len() ==> #[trigger] s[i] != 0x0Au8,
    ensures
        ppm_decoded(s) == Ok::<(Seq<u8>, u32, u32), LoadError>((Seq::<u8>::empty(), 0u32, 0u32)),
{
    if s.len() > 0 {
        lemma_next_newline_none(s, 0);
    } else {
        lemma_run_len_stop(s, 0, newline_sep());
    }
}

proof fn lemma_next_newline_none(s: Seq<u8>, from: int)
    requires
        0 <= from <= s.len(),
        forall|i: int| from <= i < s.len() ==> #[trigger] s[i] != 0x0Au8,
    ensures
        next_newline(s, from) == s.len(),
    decreases s.len() - from,
{
    if from < s.len() {
        lemma_run_len_step(s, from, newline_sep());
        lemma_next_newline_none(s, from + 1);
    } else {
        lemma_run_len_stop(s, from, newline_sep());
    }
}

/// The header lines are checked in order: a first line other than `P6` is
/// refused whatever follows; then a size line that is not a list of numbers;
/// then a largest value that is not 1 to 255. `p0`, `p1`, `p2` are the
/// positions of the first three newlines.
pub proof fn lemma_header_checks_in_order(s: Seq<u8>, p0: int, p1: int, p2: int)
    requires
        0 <= p0 < s.len(),
        s[p0] == 0x0Au8,
        forall|i: int| 0 <= i < p0 ==> #[trigger] s[i] != 0x0Au8,
    ensures
        s.take(p0) != seq![0x50u8, 0x36u8] ==> ppm_decoded(s) == Err::<(Seq<u8>, u32, u32), LoadError>(
            LoadError::PpmMagic,
        ),
        (s.take(p0) == seq![0x50u8, 0x36u8] && p0 < p1 < s.len() && s[p1] == 0x0Au8 && (forall|i: int|
            p0 < i < p1 ==> #[trigger] s[i] != 0x0Au8) && size_line(s.subrange(p0 + 1, p1))
            is None) ==> ppm_decoded(s) == Err::<(Seq<u8>, u32, u32), LoadError>(LoadError::PpmSize),
        (s.take(p0) == seq![0x50u8, 0x36u8] && p0 < p1 < p2 < s.len() && s[p1] == 0x0Au8 && s[p2]
            == 0x0Au8 && (forall|i: int| p0 < i < p1 ==> #[trigger] s[i] != 0x0Au8) && (forall|i: int|
            p1 < i < p2 ==> #[trigger] s[i] != 0x0Au8) && size_line(s.subrange(p0 + 1, p1)) is Some
            && !max_value_ok(s.subrange(p1 + 1, p2))) ==> ppm_decoded(s) == Err::<
            (Seq<u8>, u32, u32),
            LoadError,
        >(LoadError::PpmMaxValue),
{
    lemma_next_newline_at(s, 0, p0);
    if p0 < p1 < s.len() && s[p1] == 0x0Au8 && (forall|i: int|
        p0 < i < p1 ==> #[trigger] s[i] != 0x0Au8) {
        lemma_next_newline_at(s, p0 + 1, p1);
        if p1 < p2 < s.len() && s[p2] == 0x0Au8 && (forall|i: int|
            p1 < i < p2 ==> #[trigger] s[i] != 0x0Au8) {
            lemma_next_newline_at(s, p1 + 1, p2);
        }
    }
}

/// The largest value line of decimal digits is accepted exactly when its
/// value is from 1 to 255.
pub proof fn lemma_max_value_range(d: Seq<char>)
    requires
        digit_chars(d),
        digit_chars_value(d) <= 0xFFFF,
    ensures
        max_value_ok(encode_utf8(d)) <==> 1 <= digit_chars_value(d) <= 255,
{
    encode_utf8_valid_utf8(d);
    encode_utf8_decode_utf8(d);
    let c = char_codes(d);
    assert(unsigned_digits(c) == c);
    assert forall|i: int| 0 <= i < c.len() implies is_digit_code(#[trigger] c[i]) by {
        assert('0' <= d[i] <= '9');
    }
}

} // verus!
