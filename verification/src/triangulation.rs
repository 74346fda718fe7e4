//! Reading what the triangulation engine answers.
//!
//! The engine is a separate program. It is handed the points and prints the
//! faces as text: a first line with the number of faces, then one line per
//! face with the indices of its vertices, separated by white space. Running
//! the program is the caller's business; this module takes what came back
//! and either yields the faces or says why not.
//!
//! The text is UTF-8 and is read as bytes. White space is every character
//! that Unicode calls so; the ones outside ASCII take two or three bytes. A
//! byte outside ASCII that belongs to no such character is part of a token,
//! and a token with such a byte writes no index: a line that is not UTF-8
//! therefore writes no face.

use vstd::prelude::*;
use vstd::slice::slice_subrange;
use crate::adjacency::rows;
use crate::error::MeshError;

verus! {

/// The three bytes are the UTF-8 form of one of the white-space characters
/// U+1680, U+2000 to U+200A, U+2028, U+2029, U+202F, U+205F and U+3000.
pub open spec fn wide_blank(a: u8, b: u8, c: u8) -> bool {
    ||| a == 0xE1 && b == 0x9A && c == 0x80
    ||| a == 0xE2 && b == 0x80 && ((0x80 <= c && c <= 0x8A) || c == 0xA8 || c == 0xA9 || c == 0xAF)
    ||| a == 0xE2 && b == 0x81 && c == 0x9F
    ||| a == 0xE3 && b == 0x80 && c == 0x80
}

/// The number of bytes of the white-space character that starts at `at`,
/// and 0 where none starts. In one byte these are tab, line feed, vertical
/// tab, form feed, carriage return and space; in two bytes U+0085 and
/// U+00A0; in three bytes those of `wide_blank`.
pub open spec fn blank_at(s: Seq<u8>, at: int) -> nat {
    if at < 0 || at >= s.len() {
        0
    } else if s[at] == 32 || (9 <= s[at] && s[at] <= 13) {
        1
    } else if at + 1 < s.len() && s[at] == 0xC2 && (s[at + 1] == 0x85 || s[at + 1] == 0xA0) {
        2
    } else if at + 2 < s.len() && wide_blank(s[at], s[at + 1], s[at + 2]) {
        3
    } else {
        0
    }
}

/// The number of bytes from `from` up to the next line feed or the end.
pub open spec fn line_len(s: Seq<u8>, from: int) -> nat
    decreases s.len() - from,
{
    if 0 <= from < s.len() && s[from] != 10 {
        1 + line_len(s, from + 1)
    } else {
        0
    }
}

/// The number of bytes of the run of white-space characters that starts at
/// `from`.
pub open spec fn gap_len(s: Seq<u8>, from: int) -> nat
    decreases s.len() - from,
{
    let n = blank_at(s, from);
    if n > 0 {
        n + gap_len(s, from + n)
    } else {
        0
    }
}

/// The number of bytes from `from` up to the next white-space character or
/// the end.
pub open spec fn token_len(s: Seq<u8>, from: int) -> nat
    decreases s.len() - from,
{
    if 0 <= from < s.len() && blank_at(s, from) == 0 {
        1 + token_len(s, from + 1)
    } else {
        0
    }
}

/// The number that a string of decimal digits writes.
pub open spec fn digits_value(s: Seq<u8>) -> nat
    decreases s.len(),
{
    if s.len() == 0 {
        0
    } else {
        10 * digits_value(s.drop_last()) + (s.last() - 48) as nat
    }
}

/// Every byte is one of `0` to `9`.
pub open spec fn all_digits(s: Seq<u8>) -> bool {
    forall|i: int| 0 <= i < s.len() ==> 48 <= #[trigger] s[i] <= 57
}

/// The digits of a token: what follows one leading `+`, if there is one.
pub open spec fn digits_of(token: Seq<u8>) -> Seq<u8> {
    if token.len() > 0 && token[0] == 43 {
        token.skip(1)
    } else {
        token
    }
}

/// The index that a token writes: an optional `+`, then at least one
/// decimal digit and nothing else, with a value that fits the machine word.
pub open spec fn index_of_token(token: Seq<u8>) -> Option<usize> {
    let digits = digits_of(token);
    if digits.len() > 0 && all_digits(digits) && digits_value(digits) <= usize::MAX {
        Some(digits_value(digits) as usize)
    } else {
        None
    }
}

/// `line` without one carriage return at its end.
pub open spec fn strip_cr(line: Seq<u8>) -> Seq<u8> {
    if line.len() > 0 && line.last() == 13 {
        line.drop_last()
    } else {
        line
    }
}

/// The position after the byte that ended a run at `end`, or the end of
/// the text where the run reached it.
pub open spec fn after(s: Seq<u8>, end: int) -> int {
    if end < s.len() {
        end + 1
    } else {
        s.len() as int
    }
}

/// The lines of `text` from position `from` on. A line ends at a line feed
/// or at the end of the text; a carriage return just before the line feed
/// is not part of the line. A line feed at the very end starts no line.
pub open spec fn lines_from(text: Seq<u8>, from: int) -> Seq<Seq<u8>>
    decreases text.len() - from,
{
    if 0 <= from < text.len() {
        let end = from + line_len(text, from);
        let raw = text.subrange(from, end);
        let line = if end < text.len() {
            strip_cr(raw)
        } else {
            raw
        };
        seq![line].add(lines_from(text, after(text, end)))
    } else {
        Seq::empty()
    }
}

/// The tokens of `line` from position `from` on: the maximal runs of bytes
/// between white-space characters.
pub open spec fn tokens_from(line: Seq<u8>, from: int) -> Seq<Seq<u8>>
    decreases line.len() - from,
    via tokens_from_ends
{
    let start = from + gap_len(line, from);
    if 0 <= from && start < line.len() {
        let end = start + token_len(line, start);
        seq![line.subrange(start, end)].add(tokens_from(line, end))
    } else {
        Seq::empty()
    }
}

#[via_fn]
proof fn tokens_from_ends(line: Seq<u8>, from: int) {
    if 0 <= from {
        lemma_gap(line, from);
        lemma_token(line, from + gap_len(line, from));
    }
}

/// A gap ends within the text, and where no white-space character starts.
proof fn lemma_gap(s: Seq<u8>, from: int)
    requires
        0 <= from,
    ensures
        from + gap_len(s, from) <= s.len() || gap_len(s, from) == 0,
        blank_at(s, from + gap_len(s, from)) == 0,
    decreases s.len() - from,
{
    let n = blank_at(s, from);
    if n > 0 {
        lemma_gap(s, from + n);
    }
}

/// A token ends within the text, and takes at least the byte at which it
/// starts when no white-space character starts there.
proof fn lemma_token(s: Seq<u8>, from: int)
    requires
        0 <= from,
    ensures
        from + token_len(s, from) <= s.len() || token_len(s, from) == 0,
        from < s.len() && blank_at(s, from) == 0 ==> token_len(s, from) >= 1,
    decreases s.len() - from,
{
    if from < s.len() && blank_at(s, from) == 0 {
        lemma_token(s, from + 1);
    }
}

/// Every token writes an index.
pub open spec fn all_indices(tokens: Seq<Seq<u8>>) -> bool {
    forall|i: int| 0 <= i < tokens.len() ==> index_of_token(#[trigger] tokens[i]) is Some
}

/// The face that a line writes, if each of its tokens is an index.
pub open spec fn face_of_line(line: Seq<u8>) -> Option<Seq<usize>> {
    let tokens = tokens_from(line, 0);
    if all_indices(tokens) {
        Some(Seq::new(tokens.len(), |i: int| index_of_token(tokens[i]).unwrap()))
    } else {
        None
    }
}

/// Every line after the first writes a face.
pub open spec fn all_faces(lines: Seq<Seq<u8>>) -> bool {
    forall|i: int| 1 <= i < lines.len() ==> face_of_line(#[trigger] lines[i]) is Some
}

/// The faces that `text` writes: the first line is the number of faces and
/// nothing else, each further line is one face, and there are as many of
/// them as the first line says. Anything else writes no faces.
pub open spec fn faces_of_text(text: Seq<u8>) -> Option<Seq<Seq<usize>>> {
    let lines = lines_from(text, 0);
    if lines.len() == 0 {
        None
    } else {
        match index_of_token(lines[0]) {
            None => None,
            Some(count) => if count == lines.len() - 1 && all_faces(lines) {
                Some(Seq::new(count as nat, |i: int| face_of_line(lines[i + 1]).unwrap()))
            } else {
                None
            },
        }
    }
}

/// From `at` on, `s` is made of ASCII bytes and of white-space characters
/// and of nothing else. Such bytes are UTF-8.
pub open spec fn plain_from(s: Seq<u8>, at: int) -> bool
    decreases s.len() - at,
{
    if at < 0 || at >= s.len() {
        true
    } else if s[at] < 128 {
        plain_from(s, at + 1)
    } else if blank_at(s, at) > 0 {
        plain_from(s, at + blank_at(s, at))
    } else {
        false
    }
}

/// A run of ASCII bytes can be left out of the question.
proof fn lemma_plain_over_ascii(s: Seq<u8>, from: int, to: int)
    requires
        0 <= from <= to <= s.len(),
        forall|k: int| from <= k < to ==> #[trigger] s[k] < 128,
    ensures
        plain_from(s, from) == plain_from(s, to),
    decreases to - from,
{
    if from < to {
        lemma_plain_over_ascii(s, from + 1, to);
    }
}

/// So can a gap.
proof fn lemma_plain_over_gap(s: Seq<u8>, from: int)
    requires
        0 <= from,
    ensures
        plain_from(s, from) == plain_from(s, from + gap_len(s, from)),
    decreases s.len() - from,
{
    let n = blank_at(s, from);
    if n > 0 {
        lemma_plain_over_gap(s, from + n);
    }
}

/// A token that writes an index is ASCII.
proof fn lemma_index_is_ascii(token: Seq<u8>)
    requires
        index_of_token(token) is Some,
    ensures
        forall|k: int| 0 <= k < token.len() ==> #[trigger] token[k] < 128,
{
    let digits = digits_of(token);
    assert forall|k: int| 0 <= k < token.len() implies #[trigger] token[k] < 128 by {
        if token[0] == 43 {
            if k > 0 {
                assert(digits[k - 1] == token[k]);
            }
        } else {
            assert(digits[k] == token[k]);
        }
    }
}

proof fn lemma_tokens_plain(line: Seq<u8>, from: int)
    requires
        0 <= from,
        all_indices(tokens_from(line, from)),
    ensures
        plain_from(line, from),
    decreases line.len() - from,
{
    let start = from + gap_len(line, from);
    lemma_plain_over_gap(line, from);
    lemma_gap(line, from);
    if start < line.len() {
        let end = start + token_len(line, start);
        lemma_token(line, start);
        let token = line.subrange(start, end);
        let tokens = tokens_from(line, from);
        let rest = tokens_from(line, end);
        assert(tokens =~= seq![token].add(rest));
        assert(tokens[0] == token);
        lemma_index_is_ascii(token);
        assert forall|k: int| start <= k < end implies #[trigger] line[k] < 128 by {
            assert(token[k - start] == line[k]);
        }
        lemma_plain_over_ascii(line, start, end);
        assert forall|i: int| 0 <= i < rest.len() implies index_of_token(#[trigger] rest[i]) is Some by {
            assert(tokens[i + 1] == rest[i]);
        }
        lemma_tokens_plain(line, end);
    }
}

/// Bytes that are made of ASCII bytes and white-space characters only are
/// valid UTF-8.
pub proof fn lemma_plain_is_utf8(s: Seq<u8>, at: int)
    requires
        0 <= at <= s.len(),
        plain_from(s, at),
    ensures
        vstd::utf8::valid_utf8(s.subrange(at, s.len() as int)),
    decreases s.len() - at,
{
    let rest = s.subrange(at, s.len() as int);
    if at < s.len() {
        let a = s[at];
        assert(rest[0] == a);
        if a < 128 {
            assert(((a & 0x7F) as u32) < 0x80) by (bit_vector);
            assert(vstd::utf8::valid_first_scalar(rest));
            assert(vstd::utf8::pop_first_scalar(rest) =~= s.subrange(at + 1, s.len() as int));
            lemma_plain_is_utf8(s, at + 1);
        } else if blank_at(s, at) == 2 {
            let b = s[at + 1];
            assert(rest[1] == b);
            assert(a == 0xC2 && (b == 0x85 || b == 0xA0) ==> 0x80 <= ((((a & 0x1F) as u32) << 6) | ((b & 0x3F) as u32))
                < 0x100) by (bit_vector);
            assert(vstd::utf8::valid_first_scalar(rest));
            assert(vstd::utf8::pop_first_scalar(rest) =~= s.subrange(at + 2, s.len() as int));
            lemma_plain_is_utf8(s, at + 2);
        } else {
            let b = s[at + 1];
            let c = s[at + 2];
            assert(rest[1] == b && rest[2] == c);
            assert((a == 0xE1 || a == 0xE2 || a == 0xE3) ==> 0x1000 <= ((((a & 0x0F) as u32) << 12) | (((b & 0x3F) as u32)
                << 6) | ((c & 0x3F) as u32)) < 0x4000) by (bit_vector);
            assert(vstd::utf8::valid_first_scalar(rest));
            assert(vstd::utf8::pop_first_scalar(rest) =~= s.subrange(at + 3, s.len() as int));
            lemma_plain_is_utf8(s, at + 3);
        }
    }
}

/// Every line of a text that writes faces is made of ASCII bytes and
/// white-space characters only, and so is valid UTF-8: a text with a line
/// that is not UTF-8 writes no faces.
pub proof fn lemma_read_lines_are_utf8(text: Seq<u8>)
    requires
        faces_of_text(text) is Some,
    ensures
        forall|i: int|
            0 <= i < lines_from(text, 0).len() ==> {
                &&& plain_from(#[trigger] lines_from(text, 0)[i], 0)
                &&& vstd::utf8::valid_utf8(lines_from(text, 0)[i])
            },
{
    let lines = lines_from(text, 0);
    assert forall|i: int| 0 <= i < lines.len() implies {
        &&& plain_from(#[trigger] lines[i], 0)
        &&& vstd::utf8::valid_utf8(lines[i])
    } by {
        if i == 0 {
            lemma_index_is_ascii(lines[0]);
            lemma_plain_over_ascii(lines[0], 0, lines[0].len() as int);
        } else {
            assert(face_of_line(lines[i]) is Some);
            lemma_tokens_plain(lines[i], 0);
        }
        lemma_plain_is_utf8(lines[i], 0);
        assert(lines[i].subrange(0, lines[i].len() as int) =~= lines[i]);
    }
}

/// `res` is what reading `text` has to give: its faces, or a failure of
/// the engine when it writes none.
pub open spec fn reading_of(text: Seq<u8>, res: Result<Vec<Vec<usize>>, MeshError>) -> bool {
    match res {
        Ok(faces) => faces_of_text(text) == Some(rows(faces@)),
        Err(e) => e == MeshError::OracleFailure && faces_of_text(text) is None,
    }
}

/// The end of the line that starts at `from`.
fn scan_line(text: &[u8], from: usize) -> (end: usize)
    requires
        from <= text@.len(),
    ensures
        end == from + line_len(text@, from as int),
        from <= end <= text@.len(),
{
    let mut i: usize = from;
    while i < text.len() && text[i] != 10
        invariant
            from <= i <= text@.len(),
            from + line_len(text@, from as int) == i + line_len(text@, i as int),
        decreases text@.len() - i,
    {
        i += 1;
    }
    i
}

/// The number of bytes of the white-space character that starts at `at`.
fn blank_len(text: &[u8], at: usize) -> (n: usize)
    requires
        at < text@.len(),
    ensures
        n == blank_at(text@, at as int),
        at + n <= text@.len(),
{
    let len = text.len();
    let a = text[at];
    if a == 32 || (9 <= a && a <= 13) {
        1
    } else if len - at >= 2 && a == 0xC2 && (text[at + 1] == 0x85 || text[at + 1] == 0xA0) {
        2
    } else if len - at >= 3 {
        let b = text[at + 1];
        let c = text[at + 2];
        if (a == 0xE1 && b == 0x9A && c == 0x80) || (a == 0xE2 && b == 0x80 && ((0x80 <= c && c <= 0x8A) || c == 0xA8
            || c == 0xA9 || c == 0xAF)) || (a == 0xE2 && b == 0x81 && c == 0x9F) || (a == 0xE3 && b == 0x80 && c
            == 0x80) {
            3
        } else {
            0
        }
    } else {
        0
    }
}

/// The end of the run of white-space characters that starts at `from`.
fn scan_gap(text: &[u8], from: usize) -> (end: usize)
    requires
        from <= text@.len(),
    ensures
        end == from + gap_len(text@, from as int),
        from <= end <= text@.len(),
{
    let mut i: usize = from;
    let mut open = true;
    while open && i < text.len()
        invariant
            from <= i <= text@.len(),
            from + gap_len(text@, from as int) == i + gap_len(text@, i as int),
            !open ==> gap_len(text@, i as int) == 0,
        decreases
                text@.len() - i + if open {
                    1int
                } else {
                    0int
                },
    {
        let n = blank_len(text, i);
        if n == 0 {
            open = false;
        } else {
            i += n;
        }
    }
    i
}

/// The end of the token that starts at `from`.
fn scan_token(text: &[u8], from: usize) -> (end: usize)
    requires
        from <= text@.len(),
    ensures
        end == from + token_len(text@, from as int),
        from <= end <= text@.len(),
{
    let mut i: usize = from;
    let mut open = true;
    while open && i < text.len()
        invariant
            from <= i <= text@.len(),
            from + token_len(text@, from as int) == i + token_len(text@, i as int),
            !open ==> token_len(text@, i as int) == 0,
        decreases
                text@.len() - i + if open {
                    1int
                } else {
                    0int
                },
    {
        if blank_len(text, i) == 0 {
            i += 1;
        } else {
            open = false;
        }
    }
    i
}

proof fn lemma_digits_value_grows(s: Seq<u8>, k: int)
    requires
        0 <= k <= s.len(),
        all_digits(s),
    ensures
        digits_value(s.take(k)) <= digits_value(s),
    decreases s.len() - k,
{
    if k < s.len() {
        let longer = s.take(k + 1);
        assert(longer.drop_last() =~= s.take(k));
        assert(longer.last() == s[k]);
        assert(digits_value(longer) == 10 * digits_value(s.take(k)) + (s[k] - 48) as nat);
        lemma_digits_value_grows(s, k + 1);
    } else {
        assert(s.take(k) =~= s);
    }
}

/// The index that `token` writes.
fn read_index(token: &[u8]) -> (res: Option<usize>)
    ensures
        res == index_of_token(token@),
{
    let n = token.len();
    let start: usize = if n > 0 && token[0] == 43 {
        1
    } else {
        0
    };
    let ghost digits = digits_of(token@);
    assert(digits.len() == n - start);
    assert(forall|i: int| 0 <= i < digits.len() ==> digits[i] == token@[i + start]);
    if start == n {
        return None;
    }
    let mut value: usize = 0;
    let mut i: usize = start;
    while i < n
        invariant
            start <= i <= n,
            n == token@.len(),
            digits == digits_of(token@),
            digits.len() == n - start,
            forall|j: int| 0 <= j < digits.len() ==> digits[j] == token@[j + start],
            all_digits(digits.take(i - start)),
            value == digits_value(digits.take(i - start)),
        decreases n - i,
    {
        let b = token[i];
        if b < 48 || b > 57 {
            assert(!all_digits(digits)) by {
                assert(digits[i - start] == b);
            }
            return None;
        }
        let ghost shorter = digits.take(i - start);
        let ghost longer = digits.take(i - start + 1);
        proof {
            assert(longer.drop_last() =~= shorter);
            assert(longer.last() == b);
            assert(digits_value(longer) == 10 * value + (b - 48));
            assert(all_digits(longer)) by {
                assert forall|j: int| 0 <= j < longer.len() implies 48 <= #[trigger] longer[j] <= 57 by {
                    if j < shorter.len() {
                        assert(longer[j] == shorter[j]);
                    }
                }
            }
        }
        let next = match value.checked_mul(10) {
            Some(tens) => tens.checked_add((b - 48) as usize),
            None => None,
        };
        match next {
            Some(v) => {
                value = v;
            },
            None => {
                proof {
                    assert(digits_value(longer) > usize::MAX);
                    if all_digits(digits) {
                        lemma_digits_value_grows(digits, i - start + 1);
                    }
                }
                return None;
            },
        }
        i += 1;
    }
    proof {
        assert(digits.take(n - start) =~= digits);
    }
    Some(value)
}

/// The face that `line` writes.
fn read_face(line: &[u8]) -> (res: Option<Vec<usize>>)
    ensures
        match res {
            Some(face) => face_of_line(line@) == Some(face@),
            None => face_of_line(line@) is None,
        },
{
    let n = line.len();
    let ghost tokens = tokens_from(line@, 0);
    let ghost mut seen: Seq<Seq<u8>> = Seq::empty();
    let mut face: Vec<usize> = Vec::new();
    let mut pos: usize = 0;
    let mut open = true;
    while open
        invariant
            n == line@.len(),
            tokens == tokens_from(line@, 0),
            open ==> pos <= n,
            open ==> tokens == seen.add(tokens_from(line@, pos as int)),
            !open ==> tokens == seen,
            face@.len() == seen.len(),
            forall|i: int| 0 <= i < seen.len() ==> index_of_token(#[trigger] seen[i]) == Some(face@[i]),
        decreases
                n - pos + if open {
                    1int
                } else {
                    0int
                },
    {
        let start = scan_gap(line, pos);
        if start >= n {
            proof {
                assert(tokens_from(line@, pos as int) =~= Seq::<Seq<u8>>::empty());
                assert(tokens =~= seen);
            }
            open = false;
        } else {
            let end = scan_token(line, start);
            let token = slice_subrange(line, start, end);
            proof {
                lemma_gap(line@, pos as int);
                lemma_token(line@, start as int);
                assert(tokens_from(line@, pos as int) =~= seq![token@].add(tokens_from(line@, end as int)));
                assert(tokens =~= seen.push(token@).add(tokens_from(line@, end as int)));
                assert(tokens[seen.len() as int] == token@);
            }
            match read_index(token) {
                None => {
                    assert(!all_indices(tokens));
                    return None;
                },
                Some(v) => {
                    face.push(v);
                    proof {
                        seen = seen.push(token@);
                    }
                },
            }
            pos = end;
        }
    }
    proof {
        assert(all_indices(tokens));
        assert(Seq::new(tokens.len(), |i: int| index_of_token(tokens[i]).unwrap()) =~= face@);
    }
    Some(face)
}

/// The line of `text` that starts at `from` and ends before `end`.
fn line_between(text: &[u8], from: usize, end: usize) -> (line: &[u8])
    requires
        from <= end <= text@.len(),
    ensures
        line@ == if end < text@.len() {
            strip_cr(text@.subrange(from as int, end as int))
        } else {
            text@.subrange(from as int, end as int)
        },
{
    if end < text.len() && from < end && text[end - 1] == 13 {
        let line = slice_subrange(text, from, end - 1);
        assert(line@ =~= text@.subrange(from as int, end as int).drop_last());
        line
    } else {
        slice_subrange(text, from, end)
    }
}

/// Reads the faces that the engine printed.
pub fn parse_faces(text: &[u8]) -> (res: Result<Vec<Vec<usize>>, MeshError>)
    ensures
        reading_of(text@, res),
{
    let n = text.len();
    let ghost lines = lines_from(text@, 0);
    if n == 0 {
        return Err(MeshError::OracleFailure);
    }
    let first_end = scan_line(text, 0);
    let header = line_between(text, 0, first_end);
    assert(lines =~= seq![header@].add(lines_from(text@, after(text@, first_end as int))));
    let count = match read_index(header) {
        None => {
            return Err(MeshError::OracleFailure);
        },
        Some(c) => c,
    };
    let ghost mut seen: Seq<Seq<u8>> = seq![header@];
    let mut faces: Vec<Vec<usize>> = Vec::new();
    let mut pos: usize = first_end;
    while n - pos > 1
        invariant
            n == text@.len(),
            pos <= n,
            lines == lines_from(text@, 0),
            lines == seen.add(lines_from(text@, after(text@, pos as int))),
            seen.len() == faces@.len() + 1,
            seen[0] == header@,
            forall|i: int| 0 <= i < faces@.len() ==> face_of_line(#[trigger] seen[i + 1]) == Some(faces@[i]@),
        decreases n - pos,
    {
        let from = pos + 1;
        let end = scan_line(text, from);
        let line = line_between(text, from, end);
        proof {
            assert(lines_from(text@, from as int) =~= seq![line@].add(
                lines_from(text@, after(text@, end as int)),
            ));
            assert(lines =~= seen.push(line@).add(lines_from(text@, after(text@, end as int))));
            assert(lines[seen.len() as int] == line@);
        }
        match read_face(line) {
            None => {
                assert(!all_faces(lines));
                return Err(MeshError::OracleFailure);
            },
            Some(face) => {
                faces.push(face);
                proof {
                    seen = seen.push(line@);
                }
            },
        }
        pos = end;
    }
    proof {
        assert(lines_from(text@, n as int) =~= Seq::<Seq<u8>>::empty());
        assert(lines =~= seen);
    }
    if faces.len() != count {
        return Err(MeshError::OracleFailure);
    }
    proof {
        assert(all_faces(lines)) by {
            assert forall|i: int| 1 <= i < lines.len() implies face_of_line(#[trigger] lines[i]) is Some by {
                assert(face_of_line(seen[(i - 1) + 1]) == Some(faces@[i - 1]@));
            }
        }
        let written = Seq::new(count as nat, |i: int| face_of_line(lines[i + 1]).unwrap());
        assert(written =~= rows(faces@)) by {
            assert forall|i: int| 0 <= i < count implies written[i] == rows(faces@)[i] by {
                assert(face_of_line(seen[i + 1]) == Some(faces@[i]@));
            }
        }
    }
    Ok(faces)
}

/// How a run of the triangulation engine ended.
pub enum OracleRun {
    /// The program could not be started.
    Unavailable,
    /// The program ran to its end, with this exit status and this output.
    Exited { success: bool, output: Vec<u8> },
}

/// The faces that a run of the engine yields.
///
/// A program that could not be started, one that reported failure and one
/// whose output writes no faces each end the pipeline with an error of
/// their own kind.
pub fn faces_of_run(run: &OracleRun) -> (res: Result<Vec<Vec<usize>>, MeshError>)
    ensures
        match *run {
            OracleRun::Unavailable => res == Err::<Vec<Vec<usize>>, MeshError>(MeshError::OracleUnavailable),
            OracleRun::Exited { success, output } => if success {
                reading_of(output@, res)
            } else {
                res == Err::<Vec<Vec<usize>>, MeshError>(MeshError::OracleFailure)
            },
        },
{
    match run {
        OracleRun::Unavailable => Err(MeshError::OracleUnavailable),
        OracleRun::Exited { success, output } => {
            if *success {
                parse_faces(output.as_slice())
            } else {
                Err(MeshError::OracleFailure)
            }
        },
    }
}

} // verus!
