//! The symbol table: a fixed, positional mapping from the eight logical
//! operations to eight caller-chosen characters.

use vstd::prelude::*;

verus! {

/// The canonical symbols, `+ - > < , . [ ]`, assigned positionally.
pub open spec fn default_language() -> Language {
    Language {
        inc: '+',
        dec: '-',
        inc_ptr: '>',
        dec_ptr: '<',
        get_char: ',',
        put_char: '.',
        loop_start: '[',
        loop_end: ']',
    }
}

/// Maps each of the eight roles to the character that stands for it in
/// source text. Construction does not check that the characters are
/// pairwise distinct; when two roles share a character, the parser resolves
/// the ambiguity by a fixed role order (see `op_of` in the parser).
pub struct Language {
    /// Increment the cell under the pointer.
    pub inc: char,
    /// Decrement the cell under the pointer.
    pub dec: char,
    /// Move the pointer forward.
    pub inc_ptr: char,
    /// Move the pointer backward.
    pub dec_ptr: char,
    /// Write the cell under the pointer to the output.
    pub put_char: char,
    /// Read one input byte into the cell under the pointer.
    pub get_char: char,
    /// Open a loop.
    pub loop_start: char,
    /// Close a loop.
    pub loop_end: char,
}

impl Language {
    /// A character is a token iff it equals one of the eight role symbols.
    pub open spec fn spec_is_token(self, ch: char) -> bool {
        ||| ch == self.inc
        ||| ch == self.dec
        ||| ch == self.inc_ptr
        ||| ch == self.dec_ptr
        ||| ch == self.put_char
        ||| ch == self.get_char
        ||| ch == self.loop_start
        ||| ch == self.loop_end
    }

    /// True iff `ch` is one of the eight role symbols; every other
    /// character is treated as a comment by the parser.
    pub fn is_token(&self, ch: char) -> (r: bool)
        ensures
            r == self.spec_is_token(ch),
    {
        self.inc == ch || self.dec == ch || self.inc_ptr == ch || self.dec_ptr == ch
            || self.put_char == ch || self.get_char == ch || self.loop_start == ch
            || self.loop_end == ch
    }

    /// The language whose eight symbols are the characters of `s`, assigned
    /// positionally in the order: increment, decrement, pointer-forward,
    /// pointer-backward, read-byte, write-byte, loop-start, loop-end.
    /// Fails exactly when `s` does not hold exactly eight characters.
    pub fn make_from_string(s: &String) -> (r: Option<Language>)
        ensures
            r is Some <==> s@.len() == 8,
            r matches Some(lang) ==> lang == (Language {
                inc: s@[0],
                dec: s@[1],
                inc_ptr: s@[2],
                dec_ptr: s@[3],
                get_char: s@[4],
                put_char: s@[5],
                loop_start: s@[6],
                loop_end: s@[7],
            }),
    {
        let st = s.as_str();
        if st.unicode_len() != 8 {
            return None;
        }
        Some(Language {
            inc: st.get_char(0),
            dec: st.get_char(1),
            inc_ptr: st.get_char(2),
            dec_ptr: st.get_char(3),
            get_char: st.get_char(4),
            put_char: st.get_char(5),
            loop_start: st.get_char(6),
            loop_end: st.get_char(7),
        })
    }
}

impl Default for Language {
    /// The default language uses the canonical symbols `+ - > < , . [ ]`.
    fn default() -> (r: Language)
        ensures
            r == default_language(),
    {
        Language {
            inc: '+',
            dec: '-',
            inc_ptr: '>',
            dec_ptr: '<',
            get_char: ',',
            put_char: '.',
            loop_start: '[',
            loop_end: ']',
        }
    }
}

} // verus!
