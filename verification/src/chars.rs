//! Letters and five-letter words: the alphabet primitives everything else
//! builds on.

use vstd::prelude::*;

verus! {

/// Number of letters in a word.
pub const WORD_SIZE: usize = 5;

/// Errors that can arise while parsing words, feedback codes or strategy
/// lines.
#[derive(Clone, Copy, PartialEq, Eq, Debug, Structural)]
pub enum ParseError {
    /// A character outside 'a'..'z' where a letter was expected.
    InvalidSymbol,
    /// A word string whose length is not exactly `WORD_SIZE`.
    InvalidWordLength,
    /// A feedback string whose length is not exactly `WORD_SIZE`.
    InvalidFeedbackLength,
    /// A feedback string holding a character outside the directive codes.
    InvalidDirectiveCode,
    /// A strategy line too short to hold the fixed-width records.
    InvalidStrategyLine,
}

/// True of the characters a letter can be parsed from.
pub open spec fn is_lower_char(c: char) -> bool {
    97 <= c as u32 <= 122
}

/// The symbol (0..26) encoded by a lowercase character.
pub open spec fn sym_of_char(c: char) -> u8 {
    (c as u32 - 97) as u8
}

/// The lowercase character that renders a symbol.
pub open spec fn char_of_sym(b: u8) -> char {
    ((b + 97) as u8) as char
}

/// A single letter, encoded as an integer in 0..26.
#[derive(Clone, Copy, PartialEq, Eq, Hash, Debug, Structural)]
pub struct Char {
    c: u8,
}

impl View for Char {
    type V = u8;

    closed spec fn view(&self) -> u8 {
        self.c
    }
}

impl Char {
    #[verifier::type_invariant]
    pub closed spec fn inv(self) -> bool {
        self.c < 26
    }

    /// Builds the letter encoded by a lowercase character.
    pub fn from_char(c: char) -> (r: Char)
        requires
            is_lower_char(c),
        ensures
            r@ == sym_of_char(c),
    {
        let o = c as u32;
        Char { c: (o - 97) as u8 }
    }

    /// Builds a letter directly from its symbol value.
    pub fn from_u8(c: u8) -> (r: Char)
        requires
            c <= 25,
        ensures
            r@ == c,
    {
        Char { c }
    }

    /// The lowercase character that renders this letter.
    pub fn char(&self) -> (r: char)
        ensures
            r == char_of_sym(self@),
    {
        proof {
            use_type_invariant(self);
        }
        (self.c + 97) as char
    }

    /// The symbol value of this letter.
    pub fn ord(&self) -> (r: u8)
        ensures
            r == self@,
            r < 26,
    {
        proof {
            use_type_invariant(self);
        }
        self.c
    }
}

/// The word spelled by a sequence of characters, as symbol values.
pub open spec fn word_of_str(s: Seq<char>) -> Seq<u8> {
    Seq::new(s.len(), |i: int| sym_of_char(s[i]))
}

/// True when every character of `s` is a lowercase letter.
pub open spec fn all_lower(s: Seq<char>) -> bool {
    forall|i: int| 0 <= i < s.len() ==> is_lower_char(#[trigger] s[i])
}

/// The parse error produced for a word string that does not parse.
pub open spec fn word_err_of(s: Seq<char>) -> ParseError {
    if s.len() != WORD_SIZE {
        ParseError::InvalidWordLength
    } else {
        ParseError::InvalidSymbol
    }
}

/// A word of exactly `WORD_SIZE` letters.
#[derive(Clone, Copy, PartialEq, Eq, Hash, Debug)]
pub struct Word {
    chars: [Char; WORD_SIZE],
}

impl View for Word {
    type V = Seq<u8>;

    closed spec fn view(&self) -> Seq<u8> {
        Seq::new(WORD_SIZE as nat, |i: int| self.chars[i]@)
    }
}

impl Word {
    #[verifier::type_invariant]
    pub closed spec fn inv(self) -> bool {
        forall|i: int| 0 <= i < WORD_SIZE ==> (#[trigger] self.chars[i])@ < 26
    }

    /// Parses a word from text: exactly `WORD_SIZE` lowercase letters.
    pub fn from_str(s: &str) -> (r: Result<Word, ParseError>)
        ensures
            r is Ok <==> s@.len() == WORD_SIZE && all_lower(s@),
            r matches Ok(w) ==> w@ == word_of_str(s@),
            r matches Err(e) ==> e == word_err_of(s@),
    {
        let n = s.unicode_len();
        if n != WORD_SIZE {
            return Err(ParseError::InvalidWordLength);
        }
        let mut chars: [Char; WORD_SIZE] = [Char::from_u8(0); WORD_SIZE];
        for i in 0..WORD_SIZE
            invariant
                s@.len() == WORD_SIZE,
                forall|j: int| 0 <= j < i ==> is_lower_char(#[trigger] s@[j]),
                forall|j: int| 0 <= j < i ==> (#[trigger] chars[j])@ == sym_of_char(s@[j]),
        {
            let c = s.get_char(i);
            let o = c as u32;
            if o < 97 || o > 122 {
                return Err(ParseError::InvalidSymbol);
            }
            chars[i] = Char::from_char(c);
        }
        let w = Word { chars };
        proof {
            assert(w@ =~= word_of_str(s@));
        }
        Ok(w)
    }

    /// The letters of the word, in order.
    pub fn chars(&self) -> (r: &[Char])
        ensures
            r@.len() == WORD_SIZE,
            forall|i: int| 0 <= i < WORD_SIZE ==> (#[trigger] r@[i])@ == self@[i],
    {
        &self.chars
    }

    /// The letter at position `i`.
    pub fn at(&self, i: usize) -> (r: Char)
        requires
            i < WORD_SIZE,
        ensures
            r@ == self@[i as int],
    {
        self.chars[i]
    }

    /// Whether the word holds the letter `c` at any position.
    pub fn contains(&self, c: Char) -> (r: bool)
        ensures
            r <==> self@.contains(c@),
    {
        let mut i: usize = 0;
        while i < WORD_SIZE
            invariant
                0 <= i <= WORD_SIZE,
                forall|j: int| 0 <= j < i ==> self@[j] != c@,
            decreases WORD_SIZE - i,
        {
            if self.chars[i].ord() == c.ord() {
                proof {
                    assert(self@[i as int] == c@);
                }
                return true;
            }
            i = i + 1;
        }
        proof {
            assert(forall|j: int| 0 <= j < self@.len() ==> self@[j] != c@);
        }
        false
    }

    /// Whether two words spell the same letters.
    pub fn same_as(&self, other: &Word) -> (r: bool)
        ensures
            r <==> self@ =~= other@,
    {
        let mut i: usize = 0;
        while i < WORD_SIZE
            invariant
                0 <= i <= WORD_SIZE,
                forall|j: int| 0 <= j < i ==> self@[j] == other@[j],
            decreases WORD_SIZE - i,
        {
            if self.chars[i].ord() != other.chars[i].ord() {
                proof {
                    assert(self@[i as int] != other@[i as int]);
                }
                return false;
            }
            i = i + 1;
        }
        true
    }

    /// Renders the word back to its five-character text.
    pub fn to_string(&self) -> (r: String)
        ensures
            r@ == Seq::new(WORD_SIZE as nat, |i: int| char_of_sym(self@[i])),
    {
        let mut out = String::new();
        let mut i: usize = 0;
        while i < WORD_SIZE
            invariant
                0 <= i <= WORD_SIZE,
                out@ =~= Seq::new(i as nat, |j: int| char_of_sym(self@[j])),
            decreases WORD_SIZE - i,
        {
            out.append(letter_str(self.chars[i]));
            i = i + 1;
        }
        proof {
            assert(out@ =~= Seq::new(WORD_SIZE as nat, |i: int| char_of_sym(self@[i])));
        }
        out
    }
}

/// A word always views as exactly `WORD_SIZE` symbols.
pub broadcast proof fn lemma_word_view(w: Word)
    ensures
        (#[trigger] w@).len() == WORD_SIZE,
{
}

/// Parses one word per line of an already-read word list; the first
/// malformed line fails the whole parse with its own error.
pub fn words_from_reader(lines: &Vec<String>) -> (r: Result<Vec<Word>, ParseError>)
    ensures
        r is Ok <==> (forall|i: int|
            0 <= i < lines@.len() ==> (#[trigger] lines@[i])@.len() == WORD_SIZE && all_lower(
                lines@[i]@,
            )),
        r matches Ok(ws) ==> ws@.len() == lines@.len() && forall|i: int|
            0 <= i < lines@.len() ==> (#[trigger] ws@[i])@ == word_of_str(lines@[i]@),
        r matches Err(e) ==> exists|i: int|
            0 <= i < lines@.len() && !(lines@[i]@.len() == WORD_SIZE && all_lower(
                (#[trigger] lines@[i])@,
            )) && e == word_err_of(lines@[i]@),
{
    let mut out: Vec<Word> = Vec::new();
    let mut i: usize = 0;
    while i < lines.len()
        invariant
            0 <= i <= lines@.len(),
            out@.len() == i,
            forall|j: int|
                0 <= j < i ==> (#[trigger] lines@[j])@.len() == WORD_SIZE && all_lower(
                    lines@[j]@,
                ),
            forall|j: int| 0 <= j < i ==> (#[trigger] out@[j])@ == word_of_str(lines@[j]@),
        decreases lines@.len() - i,
    {
        match Word::from_str(lines[i].as_str()) {
            Ok(w) => {
                out.push(w);
            },
            Err(e) => {
                return Err(e);
            },
        }
        i = i + 1;
    }
    Ok(out)
}

/// Every symbol of a well-formed word lies below 26.
pub proof fn lemma_word_bounds(w: Word)
    requires
        w.inv(),
    ensures
        forall|i: int| 0 <= i < WORD_SIZE ==> #[trigger] w@[i] < 26,
{
}

/// The one-character text of a single letter.
pub fn letter_str(c: Char) -> (r: &'static str)
    ensures
        r@ =~= seq![char_of_sym(c@)],
{
    proof {
        use_type_invariant(&c);
    }
    let o = c.ord();
    let r: &'static str = if o == 0 {
        proof { reveal_strlit("a"); }
        "a"
    } else if o == 1 {
        proof { reveal_strlit("b"); }
        "b"
    } else if o == 2 {
        proof { reveal_strlit("c"); }
        "c"
    } else if o == 3 {
        proof { reveal_strlit("d"); }
        "d"
    } else if o == 4 {
        proof { reveal_strlit("e"); }
        "e"
    } else if o == 5 {
        proof { reveal_strlit("f"); }
        "f"
    } else if o == 6 {
        proof { reveal_strlit("g"); }
        "g"
    } else if o == 7 {
        proof { reveal_strlit("h"); }
        "h"
    } else if o == 8 {
        proof { reveal_strlit("i"); }
        "i"
    } else if o == 9 {
        proof { reveal_strlit("j"); }
        "j"
    } else if o == 10 {
        proof { reveal_strlit("k"); }
        "k"
    } else if o == 11 {
        proof { reveal_strlit("l"); }
        "l"
    } else if o == 12 {
        proof { reveal_strlit("m"); }
        "m"
    } else if o == 13 {
        proof { reveal_strlit("n"); }
        "n"
    } else if o == 14 {
        proof { reveal_strlit("o"); }
        "o"
    } else if o == 15 {
        proof { reveal_strlit("p"); }
        "p"
    } else if o == 16 {
        proof { reveal_strlit("q"); }
        "q"
    } else if o == 17 {
        proof { reveal_strlit("r"); }
        "r"
    } else if o == 18 {
        proof { reveal_strlit("s"); }
        "s"
    } else if o == 19 {
        proof { reveal_strlit("t"); }
        "t"
    } else if o == 20 {
        proof { reveal_strlit("u"); }
        "u"
    } else if o == 21 {
        proof { reveal_strlit("v"); }
        "v"
    } else if o == 22 {
        proof { reveal_strlit("w"); }
        "w"
    } else if o == 23 {
        proof { reveal_strlit("x"); }
        "x"
    } else if o == 24 {
        proof { reveal_strlit("y"); }
        "y"
    } else {
        proof { reveal_strlit("z"); }
        "z"
    };
    r
}

} // verus!
