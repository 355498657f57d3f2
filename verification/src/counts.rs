//! Line, word, byte and character counting for one input text, and the
//! fixed-width rendering of the counts.

use vstd::prelude::*;
use vstd::string::StrSliceExecFns;
use vstd::string::StringExecFns;
use vstd::utf8::encode_utf8;

use crate::digits::dec_chars;
use crate::digits::push_char;
use crate::digits::to_decimal;

verus! {

/// Whether a character counts as whitespace for word splitting. Named: the
/// Unicode whitespace property is a function of the character alone.
pub uninterp spec fn is_space(c: char) -> bool;

/// Whether a character has the Unicode whitespace property.
///
/// Relies on `char::is_whitespace`: the property depends on the character
/// alone.
#[verifier::external_body]
fn char_is_whitespace(c: char) -> (r: bool)
    ensures
        r == is_space(c),
{
    c.is_whitespace()
}

/// How many newline characters the text holds.
pub open spec fn newline_count(s: Seq<char>) -> nat
    decreases s.len(),
{
    if s.len() == 0 {
        0
    } else {
        newline_count(s.drop_last()) + if s.last() == '\n' {
            1nat
        } else {
            0nat
        }
    }
}

/// A text holds no more newlines than characters.
proof fn lemma_newline_count_le(s: Seq<char>)
    ensures
        newline_count(s) <= s.len(),
    decreases s.len(),
{
    if s.len() > 0 {
        lemma_newline_count_le(s.drop_last());
    }
}

/// How many lines a reader of terminator-inclusive lines yields: one per
/// newline, plus a final unterminated line when text follows the last
/// newline.
pub open spec fn line_count_of(s: Seq<char>) -> nat {
    newline_count(s) + if s.len() > 0 && s.last() != '\n' {
        1nat
    } else {
        0nat
    }
}

/// Whether a word starts at position `i`: a non-space preceded by nothing or
/// by a space.
pub open spec fn word_starts_at(s: Seq<char>, i: int) -> bool {
    !is_space(s[i]) && (i == 0 || is_space(s[i - 1]))
}

/// How many words start within the first `n` characters.
pub open spec fn word_count_upto(s: Seq<char>, n: int) -> nat
    decreases n,
{
    if n <= 0 {
        0
    } else {
        word_count_upto(s, n - 1) + if word_starts_at(s, n - 1) {
            1nat
        } else {
            0nat
        }
    }
}

/// How many maximal whitespace-free runs the text holds.
pub open spec fn word_count_of(s: Seq<char>) -> nat {
    word_count_upto(s, s.len() as int)
}

/// The line, word, byte and character counts of one input.
#[derive(Debug, PartialEq, Eq, Structural)]
pub struct FileInfo {
    pub line_count: usize,
    pub word_count: usize,
    pub byte_count: usize,
    pub char_count: usize,
}

/// Counts the lines, words, bytes and characters of one input text, given
/// whole with its line terminators intact.
pub fn get_file_info(text: &str) -> (info: FileInfo)
    ensures
        info.line_count == line_count_of(text@),
        info.word_count == word_count_of(text@),
        info.byte_count == encode_utf8(text@).len() as usize,
        info.char_count == text@.len(),
{
    let byte_count = text.len();
    let char_count = text.unicode_len();
    let mut newlines: usize = 0;
    let mut words: usize = 0;
    let mut prev_space = true;
    let mut i: usize = 0;
    proof {
        assert(text@.subrange(0, 0) =~= Seq::<char>::empty());
    }
    while i < char_count
        invariant
            i <= char_count,
            char_count == text@.len(),
            newlines as nat == newline_count(text@.subrange(0, i as int)),
            newlines <= i,
            words as nat == word_count_upto(text@, i as int),
            words <= i,
            prev_space == (i == 0 || is_space(text@[i as int - 1])),
        decreases char_count - i,
    {
        let c = text.get_char(i);
        proof {
            assert(text@.subrange(0, i as int + 1).drop_last() =~= text@.subrange(0, i as int));
            assert(text@.subrange(0, i as int + 1).last() == text@[i as int]);
        }
        if c == '\n' {
            newlines = newlines + 1;
        }
        let space = char_is_whitespace(c);
        if !space && prev_space {
            words = words + 1;
        }
        prev_space = space;
        i = i + 1;
    }
    proof {
        assert(text@.subrange(0, char_count as int) =~= text@);
    }
    let line_count = if char_count > 0 {
        let last = text.get_char(char_count - 1);
        if last != '\n' {
            proof {
                assert(text@.drop_last() =~= text@.subrange(0, char_count as int - 1));
                assert(newline_count(text@) == newline_count(text@.drop_last()));
                lemma_newline_count_le(text@.drop_last());
            }
            newlines + 1
        } else {
            newlines
        }
    } else {
        newlines
    };
    FileInfo { line_count, word_count: words, byte_count, char_count }
}

/// A run of space characters of the given length.
pub open spec fn spaces(n: nat) -> Seq<char>
    decreases n,
{
    if n == 0 {
        Seq::empty()
    } else {
        spaces((n - 1) as nat).push(' ')
    }
}

/// A numeral right-aligned in a field at least `width` characters wide.
pub open spec fn right_aligned(digits: Seq<char>, width: nat) -> Seq<char> {
    if digits.len() >= width {
        digits
    } else {
        spaces((width - digits.len()) as nat) + digits
    }
}

/// Renders one count right-aligned in an eight-character field when shown,
/// and as the empty string when not.
pub fn format_field(value: usize, show: bool) -> (s: String)
    ensures
        show ==> s@ == right_aligned(dec_chars(value as nat), 8),
        !show ==> s@ == Seq::<char>::empty(),
{
    if !show {
        return String::new();
    }
    let digits = to_decimal(value);
    let digit_count = digits.as_str().unicode_len();
    if digit_count >= 8 {
        return digits;
    }
    let pad: usize = 8 - digit_count;
    let mut s = String::new();
    let mut k: usize = 0;
    proof {
        assert(s@ =~= spaces(0));
    }
    while k < pad
        invariant
            k <= pad,
            s@ == spaces(k as nat),
        decreases pad - k,
    {
        push_char(&mut s, ' ');
        k = k + 1;
    }
    s.append(digits.as_str());
    s
}

} // verus!
