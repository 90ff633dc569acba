//! Lowering of text and sample streams into 4-bit pieces, and the framing of
//! 32-bit encrypted words for the text and audio carriers.
use vstd::prelude::*;
use crate::matrix::{Matrix, flattened, is_table, transposed};

verus! {

/// The code point of each character of a text.
pub open spec fn char_codes(s: Seq<char>) -> Seq<usize> {
    s.map_values(|c: char| c as usize)
}

/// Two 4-bit pieces for each character: bits 4..8 of its code, then bits 0..4.
pub open spec fn two_digit_text(s: Seq<char>) -> Seq<u8> {
    Seq::new(
        2 * s.len(),
        |k: int|
            if k % 2 == 0 {
                ((s[k / 2] as usize >> 4usize) & 0xf) as u8
            } else {
                (s[k / 2] as usize & 0xf) as u8
            },
    )
}

/// Converts a string to the codes of its characters.
pub fn string_to_vector(s: &str) -> (r: Vec<usize>)
    ensures
        r@ == char_codes(s@),
{
    let mut r: Vec<usize> = Vec::new();
    for c in it: s.chars()
        invariant
            it.seq() == s@,
            r@ == char_codes(s@.take(it.index() as int)),
    {
        assert(s@.take(it.index() + 1) == s@.take(it.index() as int).push(c));
        r.push(c as usize);
    }
    assert(s@.take(s@.len() as int) == s@);
    r
}


/// Splits each character of a text into two 4-bit pieces, high piece first.
/// Only the low eight bits of a code take part, as in a byte of ASCII.
pub fn read_two_digit_text(s: &str) -> (r: Vec<u8>)
    ensures
        r@ == two_digit_text(s@),
{
    let codes = string_to_vector(s);
    let mut r: Vec<u8> = Vec::new();
    for i in 0..codes.len()
        invariant
            codes@ == char_codes(s@),
            r@ == two_digit_text(s@.take(i as int)),
    {
        let x = codes[i];
        let hi = ((x >> 4usize) & 0xf) as u8;
        let lo = (x & 0xf) as u8;
        r.push(hi);
        r.push(lo);
        proof {
            let t = s@.take(i + 1);
            assert(t.take(i as int) == s@.take(i as int));
            assert(r@ =~= two_digit_text(t));
        }
    }
    assert(s@.take(codes.len() as int) == s@);
    r
}


/// Why a stored stream could not be read back.
#[derive(Clone, Copy, Debug, PartialEq, Eq, Structural)]
pub enum CodecError {
    /// The stream does not split into whole groups of pieces.
    BadLength,
    /// A letter lies outside the sixteen that encode a 4-bit piece.
    InvalidSymbol,
    /// The length header is missing or is not a decimal number that fits.
    BadHeader,
    /// The length header asks for more elements than the stream holds.
    HeaderTooLong,
    /// A length does not fit in the 32 bits of the audio header.
    LengthTooLarge,
    /// The stream ends before the data that its header announces.
    Truncated,
    /// There is nothing to encrypt or decrypt.
    Empty,
}

/// The letter code of the first of the sixteen letters, `a`.
pub const LETTER_BASE: u8 = 97;

/// Piece `k` of a 32-bit word, counting from the most significant (k = 0) to
/// the least significant (k = 7).
pub open spec fn word_piece(x: u32, k: int) -> u8 {
    ((x >> ((28 - 4 * k) as u32)) & 0xf) as u8
}

/// Eight letters for each word: the letter `a + p` for each piece `p`.
pub open spec fn word_letters(words: Seq<u32>) -> Seq<u8> {
    Seq::new(8 * words.len(), |i: int| (LETTER_BASE + word_piece(words[i / 8], i % 8)) as u8)
}

/// One of the sixteen letters `a` to `p`.
pub open spec fn is_piece_letter(b: u8) -> bool {
    LETTER_BASE <= b < LETTER_BASE + 16
}

/// The 4-bit piece that letter `j` of `l` encodes.
pub open spec fn letter_piece(l: Seq<u8>, j: int) -> u32 {
    (l[j] - LETTER_BASE) as u32
}

/// The word that eight letters from position `s` of `l` encode, most
/// significant piece first.
pub open spec fn letters_word(l: Seq<u8>, s: int) -> u32 {
    (letter_piece(l, s) << 28u32) | (letter_piece(l, s + 1) << 24u32) | (letter_piece(l, s + 2)
        << 20u32) | (letter_piece(l, s + 3) << 16u32) | (letter_piece(l, s + 4) << 12u32) | (
    letter_piece(l, s + 5) << 8u32) | (letter_piece(l, s + 6) << 4u32) | letter_piece(l, s + 7)
}

/// The words that a run of letters encodes, eight letters to a word.
pub open spec fn letters_words(l: Seq<u8>) -> Seq<u32> {
    Seq::new(l.len() / 8, |i: int| letters_word(l, 8 * i))
}

proof fn lemma_word_pieces_bound(x: u32, k: int)
    requires
        0 <= k < 8,
    ensures
        word_piece(x, k) < 16,
{
    let s = (28 - 4 * k) as u32;
    assert(((x >> s) & 0xf) < 16) by (bit_vector);
    assert(((x >> s) & 0xf) as u8 == ((x >> s) & 0xf)) by (bit_vector);
}

proof fn lemma_pieces_reassemble(x: u32)
    ensures
        ((((x >> 28u32) & 0xf) << 28u32) | (((x >> 24u32) & 0xf) << 24u32) | (((x >> 20u32)
            & 0xf) << 20u32) | (((x >> 16u32) & 0xf) << 16u32) | (((x >> 12u32) & 0xf) << 12u32)
            | (((x >> 8u32) & 0xf) << 8u32) | (((x >> 4u32) & 0xf) << 4u32) | (x & 0xf)) == x,
{
    assert(((((x >> 28u32) & 0xf) << 28u32) | (((x >> 24u32) & 0xf) << 24u32) | (((x >> 20u32)
        & 0xf) << 20u32) | (((x >> 16u32) & 0xf) << 16u32) | (((x >> 12u32) & 0xf) << 12u32) | (((x
        >> 8u32) & 0xf) << 8u32) | (((x >> 4u32) & 0xf) << 4u32) | (x & 0xf)) == x) by (bit_vector);
}

proof fn lemma_letter_of_word(words: Seq<u32>, i: int, k: int)
    requires
        0 <= i < words.len(),
        0 <= k < 8,
    ensures
        letter_piece(word_letters(words), 8 * i + k) == (words[i] >> ((28 - 4 * k) as u32)) & 0xf,
{
    let x = words[i];
    lemma_word_pieces_bound(x, k);
    assert((8 * i + k) / 8 == i && (8 * i + k) % 8 == k) by (nonlinear_arith)
        requires
            0 <= k < 8,
    ;
    assert(8 * i + k < 8 * words.len()) by (nonlinear_arith)
        requires
            0 <= k < 8,
            i < words.len(),
    ;
    let s = (28 - 4 * k) as u32;
    assert(((x >> s) & 0xf) as u8 as u32 == (x >> s) & 0xf) by (bit_vector);
}

/// Reading back the letters of some words gives those words.
pub proof fn lemma_letters_round_trip(words: Seq<u32>)
    ensures
        letters_words(word_letters(words)) == words,
        forall|i: int| 0 <= i < word_letters(words).len() ==> is_piece_letter(#[trigger] word_letters(words)[i]),
{
    let l = word_letters(words);
    assert forall|i: int| 0 <= i < l.len() implies is_piece_letter(#[trigger] l[i]) by {
        lemma_word_pieces_bound(words[i / 8], i % 8);
    }
    assert forall|i: int| 0 <= i < words.len() implies #[trigger] letters_word(l, 8 * i) == words[i] by {
        let x = words[i];
        lemma_letter_of_word(words, i, 0);
        lemma_letter_of_word(words, i, 1);
        lemma_letter_of_word(words, i, 2);
        lemma_letter_of_word(words, i, 3);
        lemma_letter_of_word(words, i, 4);
        lemma_letter_of_word(words, i, 5);
        lemma_letter_of_word(words, i, 6);
        lemma_letter_of_word(words, i, 7);
        assert(letter_piece(l, 8 * i) == (x >> 28u32) & 0xf);
        assert(letter_piece(l, 8 * i + 1) == (x >> 24u32) & 0xf);
        assert(letter_piece(l, 8 * i + 2) == (x >> 20u32) & 0xf);
        assert(letter_piece(l, 8 * i + 3) == (x >> 16u32) & 0xf);
        assert(letter_piece(l, 8 * i + 4) == (x >> 12u32) & 0xf);
        assert(letter_piece(l, 8 * i + 5) == (x >> 8u32) & 0xf);
        assert(letter_piece(l, 8 * i + 6) == (x >> 4u32) & 0xf);
        assert(letter_piece(l, 8 * i + 7) == (x >> 0u32) & 0xf);
        assert((x >> 0u32) & 0xf == x & 0xf) by (bit_vector);
        lemma_pieces_reassemble(x);
    }
    assert(letters_words(l) =~= words);
}


/// Writes each 32-bit word as eight letters `a` to `p`, one for each 4-bit
/// piece, most significant piece first.
pub fn words_to_letters(words: &Vec<u32>) -> (r: Vec<u8>)
    ensures
        r@ == word_letters(words@),
{
    let mut r: Vec<u8> = Vec::new();
    for i in 0..words.len()
        invariant
            r@ == word_letters(words@.take(i as int)),
    {
        let x = words[i];
        let ghost before = r@;
        for k in 0..8usize
            invariant
                r@.len() == before.len() + k,
                r@.take(before.len() as int) == before,
                forall|j: int| 0 <= j < k ==> r@[before.len() + j] == (LETTER_BASE + word_piece(x, j)) as u8,
        {
            let shift = (28 - 4 * k) as u32;
            proof {
                lemma_word_pieces_bound(x, k as int);
            }
            let p = ((x >> shift) & 0xf) as u8;
            r.push(LETTER_BASE + p);
        }
        proof {
            let t = words@.take(i + 1);
            assert(t.take(i as int) == words@.take(i as int));
            assert forall|j: int| 0 <= j < r@.len() implies r@[j] == #[trigger] word_letters(t)[j] by {
                if j >= 8 * i {
                    assert((j - 8 * i) + 8 * i == j);
                    assert(j / 8 == i && j % 8 == j - 8 * i) by (nonlinear_arith)
                        requires 8 * i <= j < 8 * i + 8;
                } else {
                    assert(r@[j] == before[j]);
                    assert(j / 8 < i) by (nonlinear_arith)
                        requires 0 <= j < 8 * i;
                }
            }
            assert(r@ =~= word_letters(t));
        }
    }
    assert(words@.take(words.len() as int) == words@);
    r
}

/// Reads the words that the letters of `l` from position `start` on encode.
fn letters_to_words_from(l: &[u8], start: usize) -> (r: Result<Vec<u32>, CodecError>)
    requires
        start <= l@.len(),
    ensures
        ({
            let t = l@.subrange(start as int, l@.len() as int);
            match r {
                Ok(w) => t.len() % 8 == 0 && (forall|j: int| 0 <= j < t.len() ==> is_piece_letter(#[trigger] t[j]))
                    && w@ == letters_words(t),
                Err(e) => if t.len() % 8 != 0 {
                    e == CodecError::BadLength
                } else {
                    e == CodecError::InvalidSymbol && exists|j: int| 0 <= j < t.len() && !is_piece_letter(#[trigger] t[j])
                },
            }
        }),
{
    let ghost t = l@.subrange(start as int, l@.len() as int);
    let len = l.len() - start;
    if len % 8 != 0 {
        return Err(CodecError::BadLength);
    }
    let mut j: usize = start;
    while j < l.len()
        invariant
            start <= j <= l@.len(),
            t == l@.subrange(start as int, l@.len() as int),
            t.len() % 8 == 0,
            forall|q: int| 0 <= q < j - start ==> is_piece_letter(#[trigger] t[q]),
        decreases l@.len() - j,
    {
        if l[j] < LETTER_BASE || l[j] >= LETTER_BASE + 16 {
            assert(!is_piece_letter(t[j - start]));
            return Err(CodecError::InvalidSymbol);
        }
        j = j + 1;
    }
    let mut w: Vec<u32> = Vec::new();
    let groups = len / 8;
    for g in 0..groups
        invariant
            groups == t.len() / 8,
            t.len() % 8 == 0,
            start + t.len() == l@.len(),
            t == l@.subrange(start as int, l@.len() as int),
            forall|q: int| 0 <= q < t.len() ==> is_piece_letter(#[trigger] t[q]),
            w@ == letters_words(t).take(g as int),
    {
        assert(8 * g + 8 <= t.len()) by (nonlinear_arith)
            requires g < groups, groups == t.len() / 8, t.len() % 8 == 0;
        assert(start + 8 * g + 8 <= l@.len());
        assert(l@.len() == l.len());
        let s = start + 8 * g;
        assert(is_piece_letter(t[8 * g + 0]) && is_piece_letter(t[8 * g + 1]) && is_piece_letter(t[8 * g + 2])
            && is_piece_letter(t[8 * g + 3]) && is_piece_letter(t[8 * g + 4]) && is_piece_letter(t[8 * g + 5])
            && is_piece_letter(t[8 * g + 6]) && is_piece_letter(t[8 * g + 7]));
        let x = (((l[s] - LETTER_BASE) as u32) << 28u32) | (((l[s + 1] - LETTER_BASE) as u32) << 24u32)
            | (((l[s + 2] - LETTER_BASE) as u32) << 20u32) | (((l[s + 3] - LETTER_BASE) as u32)
            << 16u32) | (((l[s + 4] - LETTER_BASE) as u32) << 12u32) | (((l[s + 5] - LETTER_BASE)
            as u32) << 8u32) | (((l[s + 6] - LETTER_BASE) as u32) << 4u32) | ((l[s + 7]
            - LETTER_BASE) as u32);
        assert(x == letters_word(t, 8 * g));
        w.push(x);
        assert(w@ =~= letters_words(t).take(g + 1));
    }
    assert(w@ =~= letters_words(t));
    Ok(w)
}

/// Reads back the words that a run of letters `a` to `p` encodes, eight
/// letters to a word.
pub fn letters_to_words(l: &[u8]) -> (r: Result<Vec<u32>, CodecError>)
    ensures
        match r {
            Ok(w) => l@.len() % 8 == 0 && (forall|j: int| 0 <= j < l@.len() ==> is_piece_letter(#[trigger] l@[j]))
                && w@ == letters_words(l@),
            Err(e) => if l@.len() % 8 != 0 {
                e == CodecError::BadLength
            } else {
                e == CodecError::InvalidSymbol && exists|j: int| 0 <= j < l@.len() && !is_piece_letter(#[trigger] l@[j])
            },
        },
{
    let r = letters_to_words_from(l, 0);
    assert(l@.subrange(0, l@.len() as int) == l@);
    r
}


/// An ASCII decimal digit.
pub open spec fn is_digit(b: u8) -> bool {
    48 <= b <= 57
}

/// The ASCII decimal digits of `n`, most significant first, without leading
/// zeros.
pub open spec fn decimal(n: nat) -> Seq<u8>
    decreases n,
{
    if n < 10 {
        seq![(48 + n) as u8]
    } else {
        decimal(n / 10).push((48 + n % 10) as u8)
    }
}

/// The number that a run of ASCII decimal digits spells.
pub open spec fn digits_value(s: Seq<u8>) -> nat
    decreases s.len(),
{
    if s.len() == 0 {
        0
    } else {
        digits_value(s.drop_last()) * 10 + (s.last() - 48) as nat
    }
}

/// The number of digits with which `b` starts.
pub open spec fn digit_run(b: Seq<u8>) -> nat
    decreases b.len(),
{
    if b.len() > 0 && is_digit(b[0]) {
        1 + digit_run(b.drop_first())
    } else {
        0
    }
}

proof fn lemma_digit_run(b: Seq<u8>, i: int)
    requires
        0 <= i <= b.len(),
        forall|j: int| 0 <= j < i ==> is_digit(#[trigger] b[j]),
        i == b.len() || !is_digit(b[i]),
    ensures
        digit_run(b) == i,
    decreases i,
{
    if i > 0 {
        let d = b.drop_first();
        assert forall|j: int| 0 <= j < i - 1 implies is_digit(#[trigger] d[j]) by {
            assert(d[j] == b[j + 1]);
        }
        lemma_digit_run(d, i - 1);
    }
}

proof fn lemma_decimal_digits(n: nat)
    ensures
        decimal(n).len() > 0,
        forall|j: int| 0 <= j < decimal(n).len() ==> is_digit(#[trigger] decimal(n)[j]),
        digits_value(decimal(n)) == n,
    decreases n,
{
    if n >= 10 {
        lemma_decimal_digits(n / 10);
        let d = decimal(n);
        assert(d.drop_last() == decimal(n / 10));
        assert(d.last() == (48 + n % 10) as u8);
        assert(n == (n / 10) * 10 + n % 10);
        assert((d.last() - 48) as nat == n % 10);
        assert(digits_value(d) == digits_value(d.drop_last()) * 10 + (d.last() - 48) as nat);
    } else {
        let d = decimal(n);
        assert(d.drop_last() =~= Seq::<u8>::empty());
        assert((d.last() - 48) as nat == n);
        assert(digits_value(d.drop_last()) == 0);
        assert(digits_value(d) == digits_value(d.drop_last()) * 10 + (d.last() - 48) as nat);
    }
}

proof fn lemma_digits_value_grows(s: Seq<u8>, i: int)
    requires
        0 <= i <= s.len(),
        forall|j: int| 0 <= j < s.len() ==> is_digit(#[trigger] s[j]),
    ensures
        digits_value(s.take(i)) <= digits_value(s),
    decreases s.len() - i,
{
    if i < s.len() {
        lemma_digits_value_grows(s, i + 1);
        assert(s.take(i + 1).drop_last() == s.take(i));
    } else {
        assert(s.take(i) == s);
    }
}

/// Appends the decimal digits of `n` to `out`.
fn push_decimal(n: usize, out: &mut Vec<u8>)
    ensures
        final(out)@ == old(out)@ + decimal(n as nat),
    decreases n,
{
    if n >= 10 {
        push_decimal(n / 10, out);
    }
    out.push((48 + n % 10) as u8);
    proof {
        if n < 10 {
            assert(final(out)@ =~= old(out)@ + decimal(n as nat));
        } else {
            assert(final(out)@ =~= old(out)@ + decimal(n as nat));
        }
    }
}

/// Reads the number that the digits `b[0..end]` spell; `None` where the run is
/// empty, holds a byte that is no digit, or spells a number above `usize::MAX`.
fn parse_decimal(b: &[u8], end: usize) -> (r: Option<usize>)
    requires
        end <= b@.len(),
    ensures
        match r {
            Some(v) => end > 0 && (forall|j: int| 0 <= j < end ==> is_digit(#[trigger] b@[j]))
                && v == digits_value(b@.take(end as int)),
            None => !(end > 0 && (forall|j: int| 0 <= j < end ==> is_digit(#[trigger] b@[j]))
                && digits_value(b@.take(end as int)) <= usize::MAX),
        },
{
    if end == 0 {
        return None;
    }
    let mut v: usize = 0;
    let mut i: usize = 0;
    while i < end
        invariant
            i <= end <= b@.len(),
            forall|j: int| 0 <= j < i ==> is_digit(#[trigger] b@[j]),
            v == digits_value(b@.take(i as int)),
        decreases end - i,
    {
        let c = b[i];
        if c < 48 || c > 57 {
            return None;
        }
        let d = (c - 48) as usize;
        assert(b@.take(i + 1).drop_last() == b@.take(i as int));
        if v > (usize::MAX - d) / 10 {
            proof {
                let t = b@.take(end as int);
                if forall|j: int| 0 <= j < end ==> is_digit(#[trigger] b@[j]) {
                    assert(t.take(i + 1) == b@.take(i + 1));
                    lemma_digits_value_grows(t, i + 1);
                    assert(v * 10 + d > usize::MAX) by (nonlinear_arith)
                        requires v > (usize::MAX - d) / 10, 0 <= d <= 9;
                }
            }
            return None;
        }
        assert(v * 10 + d <= usize::MAX) by (nonlinear_arith)
            requires v <= (usize::MAX - d) / 10, 0 <= d <= 9;
        v = v * 10 + d;
        i = i + 1;
    }
    Some(v)
}

/// The text ciphertext: the decimal length, one space, then eight letters for
/// each encrypted word.
pub open spec fn text_frame(length: nat, words: Seq<u32>) -> Seq<u8> {
    decimal(length) + seq![32u8] + word_letters(words)
}

/// What reading a text ciphertext gives: the length from the header and the
/// words from the letters after the space, or why it cannot be read.
pub open spec fn read_text_frame(b: Seq<u8>) -> Result<(nat, Seq<u32>), CodecError> {
    let sp = digit_run(b);
    let t = b.skip(sp + 1 as int);
    if sp == 0 || sp >= b.len() || b[sp as int] != 32 || digits_value(b.take(sp as int)) > usize::MAX {
        Err(CodecError::BadHeader)
    } else if t.len() % 8 != 0 {
        Err(CodecError::BadLength)
    } else if exists|j: int| 0 <= j < t.len() && !is_piece_letter(#[trigger] t[j]) {
        Err(CodecError::InvalidSymbol)
    } else {
        Ok((digits_value(b.take(sp as int)), letters_words(t)))
    }
}

/// Writes the text ciphertext of `words` whose plaintext held `length`
/// elements before padding.
pub fn encode_text_ciphertext(length: usize, words: &Vec<u32>) -> (r: Vec<u8>)
    ensures
        r@ == text_frame(length as nat, words@),
{
    let mut r: Vec<u8> = Vec::new();
    push_decimal(length, &mut r);
    r.push(32);
    let mut letters = words_to_letters(words);
    r.append(&mut letters);
    assert(r@ =~= text_frame(length as nat, words@));
    r
}

/// Reads a text ciphertext back into its length header and its words.
pub fn decode_text_ciphertext(b: &[u8]) -> (r: Result<(usize, Vec<u32>), CodecError>)
    ensures
        match (r, read_text_frame(b@)) {
            (Ok((n, w)), Ok((m, v))) => n == m && w@ == v,
            (Err(e), Err(f)) => e == f,
            _ => false,
        },
{
    let mut sp: usize = 0;
    while sp < b.len() && b[sp] >= 48 && b[sp] <= 57
        invariant
            sp <= b@.len(),
            forall|j: int| 0 <= j < sp ==> is_digit(#[trigger] b@[j]),
        decreases b@.len() - sp,
    {
        sp = sp + 1;
    }
    proof {
        lemma_digit_run(b@, sp as int);
    }
    if sp == 0 || sp >= b.len() || b[sp] != 32 {
        return Err(CodecError::BadHeader);
    }
    let n = match parse_decimal(b, sp) {
        Some(n) => n,
        None => {
            return Err(CodecError::BadHeader);
        },
    };
    let w = letters_to_words_from(b, sp + 1);
    assert(b@.subrange(sp + 1, b@.len() as int) == b@.skip(sp + 1));
    match w {
        Ok(w) => Ok((n, w)),
        Err(e) => Err(e),
    }
}

/// Reading a text ciphertext gives back the length and the words it was
/// written from.
pub proof fn lemma_text_frame_round_trip(length: nat, words: Seq<u32>)
    requires
        length <= usize::MAX,
    ensures
        read_text_frame(text_frame(length, words)) == Ok::<(nat, Seq<u32>), CodecError>((length, words)),
{
    let d = decimal(length);
    let b = text_frame(length, words);
    lemma_decimal_digits(length);
    assert forall|j: int| 0 <= j < d.len() implies is_digit(#[trigger] b[j]) by {
        assert(b[j] == d[j]);
    }
    assert(b[d.len() as int] == 32u8);
    lemma_digit_run(b, d.len() as int);
    assert(b.take(d.len() as int) == d);
    assert(b.skip(d.len() + 1 as int) == word_letters(words));
    lemma_letters_round_trip(words);
}


/// A stream lengthened to a whole number of chunks by repeating its last
/// element.
pub open spec fn padded<T>(v: Seq<T>, chunk: nat) -> Seq<T> {
    if v.len() % chunk == 0 {
        v
    } else {
        v + Seq::new((chunk - v.len() % chunk) as nat, |_i: int| v.last())
    }
}

/// The block matrix of a stream whose length is a whole number of chunks:
/// `chunk` rows, and column `j` holds chunk `j` of the stream.
pub open spec fn blocks<T>(v: Seq<T>, chunk: nat) -> Seq<Seq<T>> {
    Seq::new(chunk, |i: int| Seq::new(v.len() / chunk, |j: int| v[j * chunk + i]))
}

/// Reshapes a stream into its block matrix of `chunk_size` rows, first
/// padding it to a whole number of chunks with copies of its last element.
pub fn vector_to_matrix<T: Copy>(vec: Vec<T>, chunk_size: usize) -> (r: Matrix<T>)
    requires
        vec@.len() > 0,
        chunk_size > 0,
    ensures
        r.wf(),
        r.n == chunk_size,
        r.m == padded(vec@, chunk_size as nat).len() / (chunk_size as nat),
        r@ == blocks(padded(vec@, chunk_size as nat), chunk_size as nat),
{
    let len = vec.len();
    let last = vec[len - 1];
    let extra = if len % chunk_size == 0 {
        0
    } else {
        chunk_size - len % chunk_size
    };
    let mut p = vec;
    let ghost v = p@;
    for k in 0..extra
        invariant
            p@.len() == v.len() + k,
            p@.take(v.len() as int) == v,
            v.len() > 0,
            last == v.last(),
            forall|q: int| v.len() <= q < p@.len() ==> p@[q] == last,
    {
        p.push(last);
    }
    let ghost pv = padded(v, chunk_size as nat);
    assert(p@ =~= pv) by {
        if len % chunk_size == 0 {
            assert(p@ =~= v);
        } else {
            assert(p@ =~= v + Seq::new((chunk_size - len % chunk_size) as nat, |_i: int| v.last()));
        }
    }
    assert(p@.len() % (chunk_size as nat) == 0) by (nonlinear_arith)
        requires
            p@.len() == len + extra,
            chunk_size > 0,
            extra == (if len % chunk_size == 0 { 0 } else { chunk_size - len % chunk_size }),
    ;
    let cols = p.len() / chunk_size;
    let mut data: Vec<Vec<T>> = Vec::new();
    for i in 0..chunk_size
        invariant
            p@ == pv,
            cols == pv.len() / (chunk_size as nat),
            pv.len() % (chunk_size as nat) == 0,
            data@.len() == i,
            forall|q: int| 0 <= q < i ==> (#[trigger] data@[q])@ == blocks(pv, chunk_size as nat)[q],
    {
        let mut row: Vec<T> = Vec::new();
        for j in 0..cols
            invariant
                p@ == pv,
                i < chunk_size,
                cols == pv.len() / (chunk_size as nat),
                pv.len() % (chunk_size as nat) == 0,
                row@.len() == j,
                forall|q: int| 0 <= q < j ==> row@[q] == pv[q * chunk_size + i],
        {
            assert(j * chunk_size + i < pv.len()) by (nonlinear_arith)
                requires
                    j < cols,
                    i < chunk_size,
                    cols == pv.len() / (chunk_size as nat),
                    pv.len() % (chunk_size as nat) == 0,
            ;
            assert(pv.len() == p.len());
            row.push(p[j * chunk_size + i]);
        }
        assert(row@ =~= blocks(pv, chunk_size as nat)[i as int]);
        data.push(row);
    }
    let r = Matrix { n: chunk_size, m: cols, data };
    assert(r@ =~= blocks(pv, chunk_size as nat));
    r
}

/// The entries of a matrix row by row.
pub fn matrix_to_vector<T: Copy>(matrix: &Matrix<T>) -> (r: Vec<T>)
    requires
        matrix.wf(),
    ensures
        r@ == flattened(matrix@, matrix.m as nat),
{
    let mut r: Vec<T> = Vec::new();
    assert(r@ =~= flattened(matrix@.take(0), matrix.m as nat));
    for i in 0..matrix.n
        invariant
            matrix.wf(),
            r@ == flattened(matrix@.take(i as int), matrix.m as nat),
    {
        let ghost before = r@;
        for j in 0..matrix.m
            invariant
                matrix.wf(),
                i < matrix.n,
                r@.len() == before.len() + j,
                r@.take(before.len() as int) == before,
                forall|q: int| 0 <= q < j ==> r@[before.len() + q] == matrix@[i as int][q],
        {
            assert(matrix@[i as int] == matrix.data@[i as int]@);
            r.push(matrix.data[i][j]);
        }
        proof {
            let m = matrix.m as nat;
            let t = matrix@.take(i + 1);
            assert(before.len() == i * m);
            assert((i + 1) * m == i * m + m) by (nonlinear_arith);
            assert forall|k: int| 0 <= k < r@.len() implies r@[k] == #[trigger] flattened(t, m)[k] by {
                if k >= i * m {
                    assert(k / m as int == i && k % m as int == k - i * m) by (nonlinear_arith)
                        requires i * m <= k < i * m + m, m > 0;
                } else {
                    assert(r@[k] == before[k]);
                    assert((k / (m as int)) < i) by (nonlinear_arith)
                        requires 0 <= k < i * m, m > 0;
                    assert(0 <= (k / (m as int))) by (nonlinear_arith)
                        requires 0 <= k, m > 0;
                }
            }
            assert(r@ =~= flattened(t, m));
        }
    }
    assert(matrix@.take(matrix.n as int) == matrix@);
    r
}

/// Padding adds fewer elements than a chunk, none to a stream that is already
/// a whole number of chunks long; and reading the block matrix column by
/// column, cut to the stream's length, gives the stream back.
pub proof fn lemma_blocks_round_trip<T>(v: Seq<T>, chunk: nat)
    requires
        v.len() > 0,
        chunk > 0,
    ensures
        padded(v, chunk).len() % chunk == 0,
        v.len() % chunk == 0 ==> padded(v, chunk) == v,
        v.len() <= padded(v, chunk).len() < v.len() + chunk,
        padded(v, chunk).take(v.len() as int) == v,
        is_table(blocks(padded(v, chunk), chunk), chunk, padded(v, chunk).len() / chunk),
        flattened(transposed(blocks(padded(v, chunk), chunk), padded(v, chunk).len() / chunk), chunk)
            == padded(v, chunk),
{
    let p = padded(v, chunk);
    if v.len() % chunk != 0 {
        assert(p.len() == v.len() + (chunk - v.len() % chunk));
        assert(p.len() % chunk == 0) by (nonlinear_arith)
            requires p.len() == v.len() + (chunk - v.len() % chunk), chunk > 0;
        assert(p.take(v.len() as int) =~= v);
    } else {
        assert(p.take(v.len() as int) =~= v);
    }
    let cols = p.len() / chunk;
    let b = blocks(p, chunk);
    let t = transposed(b, cols);
    let f = flattened(t, chunk);
    assert(cols * chunk == p.len()) by (nonlinear_arith)
        requires cols == p.len() / chunk, p.len() % chunk == 0, chunk > 0;
    assert forall|k: int| 0 <= k < p.len() implies #[trigger] f[k] == p[k] by {
        let j = k / chunk as int;
        let i = k % chunk as int;
        assert(0 <= j < cols && 0 <= i < chunk && j * chunk + i == k) by (nonlinear_arith)
            requires j == k / chunk as int, i == k % chunk as int, 0 <= k < p.len(),
                cols * chunk == p.len(), chunk > 0;
    }
    assert(f.len() == p.len());
    assert(f =~= p);
}


/// Four 4-bit pieces for each 16-bit sample, most significant piece first.
pub open spec fn sample_pieces(s: Seq<i16>) -> Seq<u8> {
    Seq::new(4 * s.len(), |k: int| (((s[k / 4] as u16) >> ((12 - 4 * (k % 4)) as u16)) & 0xf) as u8)
}

/// The sample that four pieces from position `s` of `p` make, most
/// significant piece first.
pub open spec fn pieces_sample(p: Seq<u8>, s: int) -> i16 {
    (((p[s] as u16) << 12u16) | ((p[s + 1] as u16) << 8u16) | ((p[s + 2] as u16) << 4u16) | (p[s
        + 3] as u16)) as i16
}

/// The samples that a run of pieces makes, four pieces to a sample.
pub open spec fn pieces_samples(p: Seq<u8>) -> Seq<i16> {
    Seq::new(p.len() / 4, |i: int| pieces_sample(p, 4 * i))
}

/// The byte that two pieces from position `s` of `p` make, high piece first.
pub open spec fn pieces_byte(p: Seq<u8>, s: int) -> u8 {
    ((p[s] << 4u8) | p[s + 1]) as u8
}

/// The bytes that a run of pieces makes, two pieces to a byte.
pub open spec fn pieces_bytes(p: Seq<u8>) -> Seq<u8> {
    Seq::new(p.len() / 2, |i: int| pieces_byte(p, 2 * i))
}

/// Splits each 16-bit sample into four 4-bit pieces, most significant first.
pub fn samples_to_nibbles(samples: &Vec<i16>) -> (r: Vec<u8>)
    ensures
        r@ == sample_pieces(samples@),
{
    let mut r: Vec<u8> = Vec::new();
    for i in 0..samples.len()
        invariant
            r@ == sample_pieces(samples@.take(i as int)),
    {
        let x = samples[i] as u16;
        r.push(((x >> 12u16) & 0xf) as u8);
        r.push(((x >> 8u16) & 0xf) as u8);
        r.push(((x >> 4u16) & 0xf) as u8);
        r.push(((x >> 0u16) & 0xf) as u8);
        proof {
            let t = samples@.take(i + 1);
            assert(t.take(i as int) == samples@.take(i as int));
            assert forall|k: int| 0 <= k < r@.len() implies r@[k] == #[trigger] sample_pieces(t)[k] by {
                if k >= 4 * i {
                    assert(k / 4 == i && k % 4 == k - 4 * i);
                } else {
                    assert(k / 4 < i);
                }
            }
            assert(r@ =~= sample_pieces(t));
        }
    }
    assert(samples@.take(samples.len() as int) == samples@);
    r
}

/// Glues the first `length` pieces back into 16-bit samples, four pieces to a
/// sample.
pub fn nibbles_to_samples(pieces: &[u8], length: usize) -> (r: Result<Vec<i16>, CodecError>)
    ensures
        match r {
            Ok(v) => length <= pieces@.len() && length % 4 == 0 && v@ == pieces_samples(pieces@.take(length as int)),
            Err(e) => if length > pieces@.len() {
                e == CodecError::HeaderTooLong
            } else {
                length % 4 != 0 && e == CodecError::BadLength
            },
        },
{
    if length > pieces.len() {
        return Err(CodecError::HeaderTooLong);
    }
    if length % 4 != 0 {
        return Err(CodecError::BadLength);
    }
    let ghost t = pieces@.take(length as int);
    let mut v: Vec<i16> = Vec::new();
    for i in 0..length / 4
        invariant
            length <= pieces@.len(),
            length % 4 == 0,
            t == pieces@.take(length as int),
            v@ == pieces_samples(t).take(i as int),
    {
        let s = 4 * i;
        let x = (((pieces[s] as u16) << 12u16) | ((pieces[s + 1] as u16) << 8u16) | ((pieces[s + 2] as u16)
            << 4u16) | (pieces[s + 3] as u16)) as i16;
        assert(x == pieces_sample(t, 4 * i));
        v.push(x);
        assert(v@ =~= pieces_samples(t).take(i + 1));
    }
    assert(v@ =~= pieces_samples(t));
    Ok(v)
}

/// Glues the first `length` pieces back into bytes, two pieces to a byte.
pub fn nibbles_to_bytes(pieces: &[u8], length: usize) -> (r: Result<Vec<u8>, CodecError>)
    ensures
        match r {
            Ok(v) => length <= pieces@.len() && length % 2 == 0 && v@ == pieces_bytes(pieces@.take(length as int)),
            Err(e) => if length > pieces@.len() {
                e == CodecError::HeaderTooLong
            } else {
                length % 2 != 0 && e == CodecError::BadLength
            },
        },
{
    if length > pieces.len() {
        return Err(CodecError::HeaderTooLong);
    }
    if length % 2 != 0 {
        return Err(CodecError::BadLength);
    }
    let ghost t = pieces@.take(length as int);
    let mut v: Vec<u8> = Vec::new();
    for i in 0..length / 2
        invariant
            length <= pieces@.len(),
            length % 2 == 0,
            t == pieces@.take(length as int),
            v@ == pieces_bytes(t).take(i as int),
    {
        let s = 2 * i;
        let x = (pieces[s] << 4u8) | pieces[s + 1];
        assert(x == pieces_byte(t, 2 * i));
        v.push(x);
        assert(v@ =~= pieces_bytes(t).take(i + 1));
    }
    assert(v@ =~= pieces_bytes(t));
    Ok(v)
}

/// Gluing the pieces of some samples gives the samples back.
pub proof fn lemma_samples_round_trip(s: Seq<i16>)
    ensures
        pieces_samples(sample_pieces(s)) == s,
{
    let p = sample_pieces(s);
    assert forall|i: int| 0 <= i < s.len() implies #[trigger] pieces_sample(p, 4 * i) == s[i] by {
        let x = s[i];
        assert(p[4 * i] == (((x as u16) >> 12u16) & 0xf) as u8);
        assert(p[4 * i + 1] == (((x as u16) >> 8u16) & 0xf) as u8);
        assert(p[4 * i + 2] == (((x as u16) >> 4u16) & 0xf) as u8);
        assert(p[4 * i + 3] == (((x as u16) >> 0u16) & 0xf) as u8);
        assert((((((((x as u16) >> 12u16) & 0xf) as u8) as u16) << 12u16) | (((((x as u16) >> 8u16)
            & 0xf) as u8 as u16) << 8u16) | (((((x as u16) >> 4u16) & 0xf) as u8 as u16) << 4u16)
            | ((((x as u16) >> 0u16) & 0xf) as u8 as u16)) as i16 == x) by (bit_vector);
    }
    assert(pieces_samples(p) =~= s);
}

/// The low byte of each character's code.
pub open spec fn low_bytes(s: Seq<char>) -> Seq<u8> {
    s.map_values(|c: char| (c as usize) as u8)
}

/// Gluing the pieces of a text gives back the low byte of each character's
/// code: the text itself where it is ASCII.
pub proof fn lemma_text_pieces_round_trip(s: Seq<char>)
    ensures
        pieces_bytes(two_digit_text(s)) == low_bytes(s),
{
    let p = two_digit_text(s);
    assert forall|i: int| 0 <= i < s.len() implies #[trigger] pieces_byte(p, 2 * i) == (s[i] as usize) as u8 by {
        let c = s[i] as usize;
        assert(p[2 * i] == ((c >> 4usize) & 0xf) as u8);
        assert(p[2 * i + 1] == (c & 0xf) as u8);
        assert((((((c >> 4usize) & 0xf) as u8) << 4u8) | ((c & 0xf) as u8)) as u8 == c as u8) by (bit_vector);
    }
    assert(pieces_bytes(p) =~= low_bytes(s));
}

/// The high 16 bits of a word, as a signed sample.
pub open spec fn high_half(x: u32) -> i16 {
    (x >> 16u32) as u16 as i16
}

/// The low 16 bits of a word, as a signed sample.
pub open spec fn low_half(x: u32) -> i16 {
    (x & 0xffff) as u16 as i16
}

/// Two samples for each word, high half first.
pub open spec fn word_halves(w: Seq<u32>) -> Seq<i16> {
    Seq::new(2 * w.len(), |k: int| if k % 2 == 0 { high_half(w[k / 2]) } else { low_half(w[k / 2]) })
}

/// The audio ciphertext: the length as a first word, then the encrypted
/// words, each split into two samples.
pub open spec fn audio_frame(length: u32, words: Seq<u32>) -> Seq<i16> {
    word_halves(seq![length] + words)
}

/// The word that two samples from position `k` of `s` make, high half first.
pub open spec fn halves_word(s: Seq<i16>, k: int) -> u32 {
    ((s[k] as u16 as u32) << 16u32) | (s[k + 1] as u16 as u32)
}

/// What reading an audio ciphertext gives: the length from its first word
/// and the words after it, or why it cannot be read.
pub open spec fn read_audio_frame(s: Seq<i16>) -> Result<(nat, Seq<u32>), CodecError> {
    if s.len() % 2 != 0 {
        Err(CodecError::BadLength)
    } else if s.len() == 0 {
        Err(CodecError::BadHeader)
    } else {
        Ok((halves_word(s, 0) as nat, Seq::new((s.len() / 2 - 1) as nat, |i: int| halves_word(s, 2 * i + 2))))
    }
}

/// Writes the audio ciphertext of `words` whose plaintext held `length`
/// pieces; the length has to fit in the 32 bits of the header.
pub fn encode_audio_stream(length: usize, words: &Vec<u32>) -> (r: Result<Vec<i16>, CodecError>)
    ensures
        match r {
            Ok(v) => length <= u32::MAX && v@ == audio_frame(length as u32, words@),
            Err(e) => length > u32::MAX && e == CodecError::LengthTooLarge,
        },
{
    if length > u32::MAX as usize {
        return Err(CodecError::LengthTooLarge);
    }
    let ghost all = seq![length as u32] + words@;
    let mut v: Vec<i16> = Vec::new();
    let n = length as u32;
    v.push((n >> 16u32) as u16 as i16);
    v.push((n & 0xffff) as u16 as i16);
    assert(v@ =~= word_halves(all.take(1)));
    for i in 0..words.len()
        invariant
            all == seq![length as u32] + words@,
            v@ == word_halves(all.take(i + 1)),
    {
        let x = words[i];
        v.push((x >> 16u32) as u16 as i16);
        v.push((x & 0xffff) as u16 as i16);
        proof {
            let t = all.take(i + 2);
            assert(t.take(i + 1) == all.take(i + 1));
            assert(t[i + 1] == x);
            assert forall|k: int| 0 <= k < v@.len() implies v@[k] == #[trigger] word_halves(t)[k] by {
                if k >= 2 * i + 2 {
                    assert(k / 2 == i + 1);
                } else {
                    assert(k / 2 < i + 1);
                }
            }
            assert(v@ =~= word_halves(t));
        }
    }
    assert(all.take(words.len() + 1) == all);
    Ok(v)
}

/// Reads an audio ciphertext back into its length header and its words.
pub fn decode_audio_stream(s: &[i16]) -> (r: Result<(usize, Vec<u32>), CodecError>)
    ensures
        match (r, read_audio_frame(s@)) {
            (Ok((n, w)), Ok((m, v))) => n == m && w@ == v,
            (Err(e), Err(f)) => e == f,
            _ => false,
        },
{
    if s.len() % 2 != 0 {
        return Err(CodecError::BadLength);
    }
    if s.len() == 0 {
        return Err(CodecError::BadHeader);
    }
    let n = (((#[verifier::truncate] (s[0] as u16)) as u32) << 16u32) | ((#[verifier::truncate] (s[1] as u16)) as u32);
    let count = s.len() / 2 - 1;
    let ghost expect = Seq::new(count as nat, |i: int| halves_word(s@, 2 * i + 2));
    let mut w: Vec<u32> = Vec::new();
    for i in 0..count
        invariant
            count == s@.len() / 2 - 1,
            s@.len() % 2 == 0,
            expect == Seq::new(count as nat, |i: int| halves_word(s@, 2 * i + 2)),
            w@ == expect.take(i as int),
    {
        assert(2 * i + 3 < s@.len());
        assert(s@.len() == s.len());
        let k = 2 * i + 2;
        let x = (((#[verifier::truncate] (s[k] as u16)) as u32) << 16u32) | ((#[verifier::truncate] (s[k + 1] as u16)) as u32);
        w.push(x);
        assert(w@ =~= expect.take(i + 1));
    }
    assert(w@ =~= expect);
    Ok((n as usize, w))
}

/// Reading an audio ciphertext gives back the length and the words it was
/// written from.
pub proof fn lemma_audio_frame_round_trip(length: u32, words: Seq<u32>)
    ensures
        read_audio_frame(audio_frame(length, words)) == Ok::<(nat, Seq<u32>), CodecError>((length as nat, words)),
{
    let all = seq![length] + words;
    let s = audio_frame(length, words);
    assert forall|i: int| 0 <= i < all.len() implies #[trigger] halves_word(s, 2 * i) == all[i] by {
        let x = all[i];
        assert(s[2 * i] == high_half(x));
        assert(s[2 * i + 1] == low_half(x));
        assert((((x >> 16u32) as u16 as i16 as u16 as u32) << 16u32) | ((x & 0xffff) as u16 as i16
            as u16 as u32) == x) by (bit_vector);
    }
    assert(halves_word(s, 0) == length) by {
        assert(halves_word(s, 2 * 0int) == all[0]);
    }
    let v = Seq::new((s.len() / 2 - 1) as nat, |i: int| halves_word(s, 2 * i + 2));
    assert forall|i: int| 0 <= i < words.len() implies v[i] == words[i] by {
        assert(halves_word(s, 2 * (i + 1)) == all[i + 1]);
        assert(2 * (i + 1) == 2 * i + 2);
    }
    assert(v =~= words);
}

/// The entries of a block matrix column by column: the stream it was
/// reshaped from, padding included.
pub fn read_columns<T: Copy>(m: &Matrix<T>) -> (r: Vec<T>)
    requires
        m.wf(),
    ensures
        r@ == flattened(transposed(m@, m.m as nat), m.n as nat),
{
    let t = m.transpose();
    matrix_to_vector(&t)
}

/// Lowers a text to the number of its 4-bit pieces and their block matrix
/// of `chunk_size` rows.
pub fn text_to_blocks(text: &str, chunk_size: usize) -> (r: Result<(usize, Matrix<u8>), CodecError>)
    requires
        chunk_size > 0,
    ensures
        match r {
            Ok((len, m)) => len == two_digit_text(text@).len() && m.wf() && m.n == chunk_size
                && m.m == padded(two_digit_text(text@), chunk_size as nat).len() / (chunk_size as nat)
                && m@ == blocks(padded(two_digit_text(text@), chunk_size as nat), chunk_size as nat),
            Err(e) => e == CodecError::Empty && text@.len() == 0,
        },
{
    let pieces = read_two_digit_text(text);
    if pieces.len() == 0 {
        return Err(CodecError::Empty);
    }
    let len = pieces.len();
    Ok((len, vector_to_matrix(pieces, chunk_size)))
}

/// Lowers 16-bit samples to the number of their 4-bit pieces and their
/// block matrix of `chunk_size` rows.
pub fn samples_to_blocks(samples: &Vec<i16>, chunk_size: usize) -> (r: Result<(usize, Matrix<u8>), CodecError>)
    requires
        chunk_size > 0,
    ensures
        match r {
            Ok((len, m)) => len == sample_pieces(samples@).len() && m.wf() && m.n == chunk_size
                && m.m == padded(sample_pieces(samples@), chunk_size as nat).len() / (chunk_size as nat)
                && m@ == blocks(padded(sample_pieces(samples@), chunk_size as nat), chunk_size as nat),
            Err(e) => e == CodecError::Empty && samples@.len() == 0,
        },
{
    let pieces = samples_to_nibbles(samples);
    if pieces.len() == 0 {
        return Err(CodecError::Empty);
    }
    let len = pieces.len();
    Ok((len, vector_to_matrix(pieces, chunk_size)))
}

/// Reshapes the words read from a ciphertext into their block matrix of
/// `chunk_size` rows.
pub fn words_to_blocks(words: Vec<u32>, chunk_size: usize) -> (r: Result<Matrix<u32>, CodecError>)
    requires
        chunk_size > 0,
    ensures
        match r {
            Ok(m) => m.wf() && m.n == chunk_size && m.m == padded(words@, chunk_size as nat).len() / (chunk_size as nat)
                && m@ == blocks(padded(words@, chunk_size as nat), chunk_size as nat),
            Err(e) => e == CodecError::Empty && words@.len() == 0,
        },
{
    if words.len() == 0 {
        return Err(CodecError::Empty);
    }
    Ok(vector_to_matrix(words, chunk_size))
}

/// Raises a decrypted block matrix of 4-bit pieces back to the first
/// `length / 2` bytes of the text.
pub fn blocks_to_text(m: &Matrix<u8>, length: usize) -> (r: Result<Vec<u8>, CodecError>)
    requires
        m.wf(),
    ensures
        ({
            let p = flattened(transposed(m@, m.m as nat), m.n as nat);
            match r {
                Ok(v) => length <= p.len() && length % 2 == 0 && v@ == pieces_bytes(p.take(length as int)),
                Err(e) => if length > p.len() {
                    e == CodecError::HeaderTooLong
                } else {
                    length % 2 != 0 && e == CodecError::BadLength
                },
            }
        }),
{
    let p = read_columns(m);
    nibbles_to_bytes(p.as_slice(), length)
}

/// Raises a decrypted block matrix of 4-bit pieces back to the first
/// `length / 4` samples.
pub fn blocks_to_samples(m: &Matrix<u8>, length: usize) -> (r: Result<Vec<i16>, CodecError>)
    requires
        m.wf(),
    ensures
        ({
            let p = flattened(transposed(m@, m.m as nat), m.n as nat);
            match r {
                Ok(v) => length <= p.len() && length % 4 == 0 && v@ == pieces_samples(p.take(length as int)),
                Err(e) => if length > p.len() {
                    e == CodecError::HeaderTooLong
                } else {
                    length % 4 != 0 && e == CodecError::BadLength
                },
            }
        }),
{
    let p = read_columns(m);
    nibbles_to_samples(p.as_slice(), length)
}

/// A text lowered to its block matrix and read back column by column, cut
/// to its length header, gives the low byte of each character's code: the
/// text itself where it is ASCII.
pub proof fn lemma_text_blocks_round_trip(s: Seq<char>, chunk: nat)
    requires
        s.len() > 0,
        chunk > 0,
    ensures
        ({
            let p = padded(two_digit_text(s), chunk);
            pieces_bytes(flattened(transposed(blocks(p, chunk), p.len() / chunk), chunk).take(
                two_digit_text(s).len() as int,
            )) == low_bytes(s)
        }),
{
    lemma_blocks_round_trip(two_digit_text(s), chunk);
    lemma_text_pieces_round_trip(s);
}

/// Samples lowered to their block matrix and read back column by column,
/// cut to their length header, give the samples back.
pub proof fn lemma_sample_blocks_round_trip(s: Seq<i16>, chunk: nat)
    requires
        s.len() > 0,
        chunk > 0,
    ensures
        ({
            let p = padded(sample_pieces(s), chunk);
            pieces_samples(flattened(transposed(blocks(p, chunk), p.len() / chunk), chunk).take(
                sample_pieces(s).len() as int,
            )) == s
        }),
{
    lemma_blocks_round_trip(sample_pieces(s), chunk);
    lemma_samples_round_trip(s);
}

} // verus!
