//! Feedback: the per-position directives produced by comparing a guessed
//! word to the solution, with Wordle's duplicate-letter accounting.

use vstd::prelude::*;

use crate::chars::Char;
use crate::chars::ParseError;
use crate::chars::Word;
use crate::chars::WORD_SIZE;

verus! {

broadcast use crate::chars::lemma_word_view;

/// The classification of one guessed letter against the solution.
#[derive(Clone, Copy, PartialEq, Eq, Hash, Debug, Structural)]
pub enum Directive {
    /// The letter stands at this position of the solution.
    Green,
    /// The letter occurs elsewhere in the solution, at a position not
    /// already credited to another occurrence.
    Yellow,
    /// The letter has no uncredited occurrence in the solution.
    Black,
}

/// First pass: a position is Green exactly when guess and solution agree
/// there; every other position starts Black.
pub open spec fn initial_directives(g: Seq<u8>, s: Seq<u8>) -> Seq<Directive> {
    Seq::new(g.len(), |i: int| if g[i] == s[i] { Directive::Green } else { Directive::Black })
}

/// Solution positions consumed by the first pass: the exact matches.
pub open spec fn initial_resolved(g: Seq<u8>, s: Seq<u8>) -> Seq<bool> {
    Seq::new(g.len(), |i: int| g[i] == s[i])
}

/// The first still-unresolved position of `s` holding `c`, scanning from
/// `j`; `s.len()` when there is none.
pub open spec fn find_unresolved(s: Seq<u8>, resolved: Seq<bool>, c: u8, j: int) -> int
    decreases s.len() - j,
{
    if j < 0 || j >= s.len() {
        s.len() as int
    } else if !resolved[j] && s[j] == c {
        j
    } else {
        find_unresolved(s, resolved, c, j + 1)
    }
}

/// One second-pass step at position `i`: a non-Green position is credited
/// Yellow when an unresolved occurrence of its letter exists, consuming
/// the leftmost such occurrence; otherwise it stays Black.
pub open spec fn mark_step(
    g: Seq<u8>,
    s: Seq<u8>,
    dirs: Seq<Directive>,
    resolved: Seq<bool>,
    i: int,
) -> (Seq<Directive>, Seq<bool>) {
    if dirs[i] == Directive::Green {
        (dirs, resolved)
    } else {
        let j = find_unresolved(s, resolved, g[i], 0);
        if j < s.len() {
            (dirs.update(i, Directive::Yellow), resolved.update(j, true))
        } else {
            (dirs, resolved)
        }
    }
}

/// The second pass applied from position `i` on.
pub open spec fn mark_from(
    g: Seq<u8>,
    s: Seq<u8>,
    dirs: Seq<Directive>,
    resolved: Seq<bool>,
    i: int,
) -> (Seq<Directive>, Seq<bool>)
    decreases g.len() - i,
{
    if i < 0 || i >= g.len() {
        (dirs, resolved)
    } else {
        let stepped = mark_step(g, s, dirs, resolved, i);
        mark_from(g, s, stepped.0, stepped.1, i + 1)
    }
}

/// The feedback for guessing `g` against solution `s`: the two-pass
/// algorithm over the word positions.
pub open spec fn feedback_spec(g: Seq<u8>, s: Seq<u8>) -> Seq<Directive> {
    mark_from(g, s, initial_directives(g, s), initial_resolved(g, s), 0).0
}

/// True when every directive is Green.
pub open spec fn all_green(f: Seq<Directive>) -> bool {
    forall|i: int| 0 <= i < f.len() ==> f[i] == Directive::Green
}

/// The directive encoded by one feedback-code character, if any.
pub open spec fn dir_of_code(c: char) -> Option<Directive> {
    if c == 'g' || c == 'G' {
        Some(Directive::Green)
    } else if c == 'y' || c == 'Y' {
        Some(Directive::Yellow)
    } else if c == 'b' || c == 'B' {
        Some(Directive::Black)
    } else {
        None
    }
}

/// True when every character of `s` is a valid directive code.
pub open spec fn all_codes(s: Seq<char>) -> bool {
    forall|i: int| 0 <= i < s.len() ==> dir_of_code(#[trigger] s[i]) is Some
}

/// The ASCII character rendering a directive.
pub open spec fn code_of_dir(d: Directive) -> char {
    match d {
        Directive::Green => 'g',
        Directive::Yellow => 'y',
        Directive::Black => 'b',
    }
}

/// The coloured-square character rendering a directive.
pub open spec fn square_of_dir(d: Directive) -> char {
    match d {
        Directive::Green => '🟩',
        Directive::Yellow => '🟨',
        Directive::Black => '⬛',
    }
}

/// Whether a candidate word is consistent with directive `d` observed at
/// position `i` of guess `g`.
pub open spec fn directive_matches(d: Directive, g: Seq<u8>, cand: Seq<u8>, i: int) -> bool {
    match d {
        Directive::Green => g[i] == cand[i],
        Directive::Yellow => g[i] != cand[i] && cand.contains(g[i]),
        Directive::Black => !cand.contains(g[i]),
    }
}

/// Whether a candidate word is consistent with the whole feedback `f`
/// observed for guess `g`.
pub open spec fn matches_spec(g: Seq<u8>, f: Seq<Directive>, cand: Seq<u8>) -> bool {
    forall|i: int| 0 <= i < g.len() ==> directive_matches(#[trigger] f[i], g, cand, i)
}

impl Directive {
    /// Whether `candidate` is consistent with this directive at position
    /// `i` of `guess`.
    pub fn matches(&self, i: usize, guess: &Word, candidate: &Word) -> (r: bool)
        requires
            i < WORD_SIZE,
        ensures
            r == directive_matches(*self, guess@, candidate@, i as int),
    {
        match self {
            Directive::Green => guess.at(i).ord() == candidate.at(i).ord(),
            Directive::Yellow => {
                guess.at(i).ord() != candidate.at(i).ord() && candidate.contains(guess.at(i))
            },
            Directive::Black => !candidate.contains(guess.at(i)),
        }
    }

    /// The ASCII rendering of this directive.
    pub fn to_ascii_char(&self) -> (r: char)
        ensures
            r == code_of_dir(*self),
    {
        match self {
            Directive::Green => 'g',
            Directive::Yellow => 'y',
            Directive::Black => 'b',
        }
    }

    /// The coloured-square rendering of this directive.
    pub fn to_char(&self) -> (r: char)
        ensures
            r == square_of_dir(*self),
    {
        match self {
            Directive::Green => '🟩',
            Directive::Yellow => '🟨',
            Directive::Black => '⬛',
        }
    }
}

/// The result of one full guess: a directive for each word position.
#[derive(Clone, Copy, PartialEq, Eq, Hash, Debug)]
pub struct Feedback {
    directives: [Directive; WORD_SIZE],
}

impl View for Feedback {
    type V = Seq<Directive>;

    closed spec fn view(&self) -> Seq<Directive> {
        Seq::new(WORD_SIZE as nat, |i: int| self.directives[i])
    }
}

impl Feedback {
    /// Parses a feedback code: five characters over {g, y, b}, upper or
    /// lower case.
    pub fn from_str(s: &str) -> (r: Result<Feedback, ParseError>)
        ensures
            r is Ok <==> s@.len() == WORD_SIZE && all_codes(s@),
            r matches Ok(f) ==> f@ == Seq::new(WORD_SIZE as nat, |i: int| dir_of_code(s@[i])->Some_0),
            r matches Err(e) ==> e == (if s@.len() != WORD_SIZE {
                ParseError::InvalidFeedbackLength
            } else {
                ParseError::InvalidDirectiveCode
            }),
    {
        let n = s.unicode_len();
        if n != WORD_SIZE {
            return Err(ParseError::InvalidFeedbackLength);
        }
        let mut directives: [Directive; WORD_SIZE] = [Directive::Green; WORD_SIZE];
        for i in 0..WORD_SIZE
            invariant
                s@.len() == WORD_SIZE,
                forall|j: int| 0 <= j < i ==> dir_of_code(#[trigger] s@[j]) is Some,
                forall|j: int| 0 <= j < i ==> directives[j] == dir_of_code(#[trigger] s@[j])->Some_0,
        {
            let c = s.get_char(i);
            directives[i] = if c == 'g' || c == 'G' {
                Directive::Green
            } else if c == 'y' || c == 'Y' {
                Directive::Yellow
            } else if c == 'b' || c == 'B' {
                Directive::Black
            } else {
                return Err(ParseError::InvalidDirectiveCode);
            };
        }
        let f = Feedback { directives };
        proof {
            assert(f@ =~= Seq::new(WORD_SIZE as nat, |i: int| dir_of_code(s@[i])->Some_0));
        }
        Ok(f)
    }

    /// Computes the feedback for `guess` against `solution` with the
    /// two-pass algorithm: exact matches first, then leftmost unresolved
    /// occurrences for the rest.
    pub fn from_word(guess: &Word, solution: &Word) -> (r: Feedback)
        ensures
            r@ == feedback_spec(guess@, solution@),
    {
        let ghost g = guess@;
        let ghost s = solution@;
        let mut directives: [Directive; WORD_SIZE] = [Directive::Black; WORD_SIZE];
        let mut resolved: [bool; WORD_SIZE] = [false; WORD_SIZE];
        for i in 0..WORD_SIZE
            invariant
                g == guess@,
                s == solution@,
                forall|j: int| 0 <= j < i ==> directives[j] == initial_directives(g, s)[j],
                forall|j: int| 0 <= j < i ==> resolved[j] == initial_resolved(g, s)[j],
                forall|j: int| i <= j < WORD_SIZE ==> directives[j] == Directive::Black,
                forall|j: int| i <= j < WORD_SIZE ==> resolved[j] == false,
        {
            if guess.at(i).ord() == solution.at(i).ord() {
                directives[i] = Directive::Green;
                resolved[i] = true;
            }
        }
        proof {
            assert(directives@ =~= initial_directives(g, s));
            assert(resolved@ =~= initial_resolved(g, s));
        }
        let ghost d0 = initial_directives(g, s);
        let ghost r0 = initial_resolved(g, s);
        for i in 0..WORD_SIZE
            invariant
                g == guess@,
                s == solution@,
                d0 == initial_directives(g, s),
                r0 == initial_resolved(g, s),
                mark_from(g, s, d0, r0, 0) == mark_from(g, s, directives@, resolved@, i as int),
        {
            let ghost d_in = directives@;
            let ghost r_in = resolved@;
            if directives[i] != Directive::Green {
                let c = guess.at(i).ord();
                let slot = find_slot(solution, &resolved, c);
                if slot < WORD_SIZE {
                    directives[i] = Directive::Yellow;
                    resolved[slot] = true;
                    proof {
                        assert(directives@ =~= d_in.update(i as int, Directive::Yellow));
                        assert(resolved@ =~= r_in.update(slot as int, true));
                        assert(mark_step(g, s, d_in, r_in, i as int) == (
                            directives@,
                            resolved@,
                        ));
                    }
                } else {
                    proof {
                        lemma_find_props(s, r_in, g[i as int], 0);
                        assert(find_unresolved(s, r_in, g[i as int], 0) == s.len());
                        assert(mark_step(g, s, d_in, r_in, i as int) == (d_in, r_in));
                    }
                }
            } else {
                proof {
                    assert(mark_step(g, s, d_in, r_in, i as int) == (d_in, r_in));
                }
            }
        }
        let f = Feedback { directives };
        proof {
            assert(mark_from(g, s, directives@, resolved@, WORD_SIZE as int) == (
                directives@,
                resolved@,
            ));
            assert(f@ =~= directives@);
        }
        f
    }

    /// Renders the feedback as coloured squares.
    pub fn to_string(&self) -> (r: String)
        ensures
            r@ == Seq::new(WORD_SIZE as nat, |i: int| square_of_dir(self@[i])),
    {
        let mut out = String::new();
        let mut i: usize = 0;
        while i < WORD_SIZE
            invariant
                0 <= i <= WORD_SIZE,
                out@ =~= Seq::new(i as nat, |j: int| square_of_dir(self@[j])),
            decreases WORD_SIZE - i,
        {
            let piece: &'static str = match self.directives[i] {
                Directive::Green => {
                    proof { reveal_strlit("🟩"); }
                    "🟩"
                },
                Directive::Yellow => {
                    proof { reveal_strlit("🟨"); }
                    "🟨"
                },
                Directive::Black => {
                    proof { reveal_strlit("⬛"); }
                    "⬛"
                },
            };
            out.append(piece);
            i = i + 1;
        }
        proof {
            assert(out@ =~= Seq::new(WORD_SIZE as nat, |i: int| square_of_dir(self@[i])));
        }
        out
    }

    /// Renders the feedback as its five-character ASCII code.
    pub fn to_ascii_string(&self) -> (r: String)
        ensures
            r@ == Seq::new(WORD_SIZE as nat, |i: int| code_of_dir(self@[i])),
    {
        let mut out = String::new();
        let mut i: usize = 0;
        while i < WORD_SIZE
            invariant
                0 <= i <= WORD_SIZE,
                out@ =~= Seq::new(i as nat, |j: int| code_of_dir(self@[j])),
            decreases WORD_SIZE - i,
        {
            let piece: &'static str = match self.directives[i] {
                Directive::Green => {
                    proof { reveal_strlit("g"); }
                    "g"
                },
                Directive::Yellow => {
                    proof { reveal_strlit("y"); }
                    "y"
                },
                Directive::Black => {
                    proof { reveal_strlit("b"); }
                    "b"
                },
            };
            out.append(piece);
            i = i + 1;
        }
        proof {
            assert(out@ =~= Seq::new(WORD_SIZE as nat, |i: int| code_of_dir(self@[i])));
        }
        out
    }

    /// The directive at position `i`.
    pub fn at(&self, i: usize) -> (r: Directive)
        requires
            i < WORD_SIZE,
        ensures
            r == self@[i as int],
    {
        self.directives[i]
    }

    /// Whether every directive is Green.
    pub fn is_all_green(&self) -> (r: bool)
        ensures
            r == all_green(self@),
    {
        let mut i: usize = 0;
        while i < WORD_SIZE
            invariant
                0 <= i <= WORD_SIZE,
                forall|j: int| 0 <= j < i ==> self@[j] == Directive::Green,
            decreases WORD_SIZE - i,
        {
            if self.directives[i] != Directive::Green {
                proof {
                    assert(self@[i as int] != Directive::Green);
                }
                return false;
            }
            i = i + 1;
        }
        true
    }

    /// Whether two feedbacks hold the same directives.
    pub fn same_as(&self, other: &Feedback) -> (r: bool)
        ensures
            r <==> self@ =~= other@,
    {
        let mut i: usize = 0;
        while i < WORD_SIZE
            invariant
                0 <= i <= WORD_SIZE,
                forall|j: int| 0 <= j < i ==> self@[j] == other@[j],
            decreases WORD_SIZE - i,
        {
            if self.directives[i] != other.directives[i] {
                proof {
                    assert(self@[i as int] != other@[i as int]);
                }
                return false;
            }
            i = i + 1;
        }
        true
    }
}

/// One completed round: the word that was guessed and the feedback it
/// received against the (unseen) solution.
#[derive(Clone, Copy, Debug)]
pub struct Guess {
    feedback: Feedback,
    word: Word,
}

impl Guess {
    /// The guessed word, as a spec value.
    pub closed spec fn spec_word(&self) -> Word {
        self.word
    }

    /// The received feedback, as a spec value.
    pub closed spec fn spec_feedback(&self) -> Feedback {
        self.feedback
    }

    /// Guesses `word` against `solution`, recording the feedback.
    pub fn new(word: &Word, solution: &Word) -> (r: Guess)
        ensures
            r.spec_word() == *word,
            r.spec_feedback()@ == feedback_spec(word@, solution@),
    {
        Guess { word: *word, feedback: Feedback::from_word(word, solution) }
    }

    /// Packs an already-observed feedback with the word it was given for.
    pub fn from_feedback_and_word(feedback: Feedback, word: Word) -> (r: Guess)
        ensures
            r.spec_word() == word,
            r.spec_feedback() == feedback,
    {
        Guess { feedback, word }
    }

    /// The feedback this guess received.
    pub fn feedback(&self) -> (r: &Feedback)
        ensures
            *r == self.spec_feedback(),
    {
        &self.feedback
    }

    /// The word that was guessed.
    pub fn word(&self) -> (r: &Word)
        ensures
            *r == self.spec_word(),
    {
        &self.word
    }

    /// Whether a hypothetical candidate solution is consistent with the
    /// feedback observed for this guess.
    pub fn matches(&self, candidate: &Word) -> (r: bool)
        ensures
            r == matches_spec(self.spec_word()@, self.spec_feedback()@, candidate@),
    {
        let mut i: usize = 0;
        while i < WORD_SIZE
            invariant
                0 <= i <= WORD_SIZE,
                forall|j: int|
                    0 <= j < i ==> directive_matches(
                        #[trigger] self.feedback@[j],
                        self.word@,
                        candidate@,
                        j,
                    ),
            decreases WORD_SIZE - i,
        {
            if !self.feedback.at(i).matches(i, &self.word, candidate) {
                return false;
            }
            i = i + 1;
        }
        true
    }

    /// Whether the feedback was all Green, i.e. the guess was the
    /// solution.
    pub fn is_all_green(&self) -> (r: bool)
        ensures
            r == all_green(self.spec_feedback()@),
    {
        self.feedback.is_all_green()
    }

    /// The directive and letter at position `i` of this guess.
    pub fn at(&self, i: usize) -> (r: (Directive, Char))
        requires
            i < WORD_SIZE,
        ensures
            r.0 == self.spec_feedback()@[i as int],
            r.1@ == self.spec_word()@[i as int],
    {
        (self.feedback.at(i), self.word.at(i))
    }
}

/// Scans the solution for the first unresolved occurrence of letter `c`,
/// mirroring `find_unresolved`; returns `WORD_SIZE` when there is none.
fn find_slot(solution: &Word, resolved: &[bool; WORD_SIZE], c: u8) -> (r: usize)
    ensures
        r as int == find_unresolved(solution@, resolved@, c, 0),
{
    let ghost s = solution@;
    let mut j: usize = 0;
    while j < WORD_SIZE
        invariant
            s == solution@,
            0 <= j <= WORD_SIZE,
            forall|k: int| 0 <= k < j ==> !(!resolved@[k] && s[k] == c),
        decreases WORD_SIZE - j,
    {
        if !resolved[j] && solution.at(j).ord() == c {
            proof {
                lemma_find_prefix(s, resolved@, c, j as int);
            }
            return j;
        }
        j = j + 1;
    }
    proof {
        lemma_find_prefix(s, resolved@, c, WORD_SIZE as int);
        lemma_find_props(s, resolved@, c, WORD_SIZE as int);
    }
    WORD_SIZE
}

/// Everything `find_unresolved` promises of its result: it lies between
/// `j` and the length, hits an unresolved occurrence when below the
/// length, and nothing before it hits.
pub proof fn lemma_find_props(s: Seq<u8>, resolved: Seq<bool>, c: u8, j: int)
    requires
        0 <= j <= s.len(),
        s.len() == resolved.len(),
    ensures
        j <= find_unresolved(s, resolved, c, j) <= s.len(),
        find_unresolved(s, resolved, c, j) < s.len() ==> {
            let r = find_unresolved(s, resolved, c, j);
            !resolved[r] && s[r] == c
        },
        forall|k: int|
            j <= k < find_unresolved(s, resolved, c, j) ==> !(!resolved[k] && s[k] == c),
    decreases s.len() - j,
{
    if j < s.len() && !(!resolved[j] && s[j] == c) {
        lemma_find_props(s, resolved, c, j + 1);
    }
}

/// Scanning from `j` finds the same position as scanning from the start
/// when nothing before `j` hits.
pub proof fn lemma_find_prefix(s: Seq<u8>, resolved: Seq<bool>, c: u8, j: int)
    requires
        0 <= j <= s.len(),
        s.len() == resolved.len(),
        forall|k: int| 0 <= k < j ==> !(!resolved[k] && s[k] == c),
    ensures
        find_unresolved(s, resolved, c, 0) == find_unresolved(s, resolved, c, j),
    decreases j,
{
    if j > 0 {
        lemma_find_prefix_step(s, resolved, c, j - 1);
        lemma_find_prefix(s, resolved, c, j - 1);
    }
}

proof fn lemma_find_prefix_step(s: Seq<u8>, resolved: Seq<bool>, c: u8, j: int)
    requires
        0 <= j < s.len(),
        s.len() == resolved.len(),
        !(!resolved[j] && s[j] == c),
    ensures
        find_unresolved(s, resolved, c, j) == find_unresolved(s, resolved, c, j + 1),
{
}

/// True when no letter repeats within `g`.
pub open spec fn distinct_letters(g: Seq<u8>) -> bool {
    forall|i: int, j: int| 0 <= i < j < g.len() ==> g[i] != g[j]
}

/// Occurrences of `c` in `s[i..]`.
pub open spec fn count_from(s: Seq<u8>, c: u8, i: int) -> nat
    decreases s.len() - i,
{
    if i < 0 || i >= s.len() {
        0
    } else {
        (if s[i] == c {
            1nat
        } else {
            0nat
        }) + count_from(s, c, i + 1)
    }
}

/// Occurrences of `c` in `s`.
pub open spec fn count_of(s: Seq<u8>, c: u8) -> nat {
    count_from(s, c, 0)
}

/// Positions `k >= i` of `g` holding `c` whose directive credits the
/// letter (Green or Yellow).
pub open spec fn credited_from(g: Seq<u8>, f: Seq<Directive>, c: u8, i: int) -> nat
    decreases g.len() - i,
{
    if i < 0 || i >= g.len() {
        0
    } else {
        (if g[i] == c && f[i] != Directive::Black {
            1nat
        } else {
            0nat
        }) + credited_from(g, f, c, i + 1)
    }
}

/// Positions of `g` holding `c` whose directive credits the letter.
pub open spec fn credited(g: Seq<u8>, f: Seq<Directive>, c: u8) -> nat {
    credited_from(g, f, c, 0)
}

/// Resolved positions `j >= i` of `s` holding `c`.
pub open spec fn resolved_from(s: Seq<u8>, resolved: Seq<bool>, c: u8, i: int) -> nat
    decreases s.len() - i,
{
    if i < 0 || i >= s.len() {
        0
    } else {
        (if resolved[i] && s[i] == c {
            1nat
        } else {
            0nat
        }) + resolved_from(s, resolved, c, i + 1)
    }
}

/// The second pass never touches a directive before `i`, never changes
/// which positions are Green, and only ever resolves more solution
/// positions.
proof fn lemma_mark_from_shape(g: Seq<u8>, s: Seq<u8>, dirs: Seq<Directive>, resolved: Seq<bool>, i: int)
    requires
        g.len() == s.len(),
        dirs.len() == g.len(),
        resolved.len() == s.len(),
        0 <= i,
    ensures
        mark_from(g, s, dirs, resolved, i).0.len() == dirs.len(),
        mark_from(g, s, dirs, resolved, i).1.len() == resolved.len(),
        forall|k: int| 0 <= k < i && k < dirs.len() ==> mark_from(g, s, dirs, resolved, i).0[k] == dirs[k],
        forall|k: int|
            0 <= k < dirs.len() ==> (mark_from(g, s, dirs, resolved, i).0[k] == Directive::Green
                <==> dirs[k] == Directive::Green),
        forall|k: int|
            0 <= k < resolved.len() && resolved[k] ==> mark_from(g, s, dirs, resolved, i).1[k],
    decreases g.len() - i,
{
    if 0 <= i < g.len() {
        let stepped = mark_step(g, s, dirs, resolved, i);
        let fin = mark_from(g, s, dirs, resolved, i);
        assert(fin == mark_from(g, s, stepped.0, stepped.1, i + 1));
        if dirs[i] != Directive::Green {
            lemma_find_props(s, resolved, g[i], 0);
        }
        lemma_mark_from_shape(g, s, stepped.0, stepped.1, i + 1);
        assert forall|k: int| 0 <= k < i && k < dirs.len() implies fin.0[k] == dirs[k] by {
            assert(fin.0[k] == stepped.0[k]);
        }
        assert forall|k: int| 0 <= k < resolved.len() && resolved[k] implies fin.1[k] by {
            assert(stepped.1[k]);
        }
    }
}

/// A feedback is all Green exactly when the guess is the solution.
pub proof fn lemma_all_green_iff_equal(g: Seq<u8>, s: Seq<u8>)
    requires
        g.len() == s.len(),
    ensures
        all_green(feedback_spec(g, s)) <==> g =~= s,
{
    let d0 = initial_directives(g, s);
    let r0 = initial_resolved(g, s);
    lemma_mark_from_shape(g, s, d0, r0, 0);
    let f = feedback_spec(g, s);
    assert(f.len() == g.len());
    if all_green(f) {
        assert forall|i: int| 0 <= i < g.len() implies g[i] == s[i] by {
            assert(f[i] == Directive::Green);
            assert(d0[i] == Directive::Green);
        }
        assert(g =~= s);
    }
    if g =~= s {
        assert forall|i: int| 0 <= i < f.len() implies f[i] == Directive::Green by {
            assert(d0[i] == Directive::Green);
        }
    }
}

/// Updating one directive shifts the credited count by exactly the
/// difference of the two terms at that position.
proof fn lemma_credited_update(g: Seq<u8>, f: Seq<Directive>, c: u8, i: int, k: int, d: Directive)
    requires
        g.len() == f.len(),
        0 <= k < g.len(),
        0 <= i <= g.len(),
    ensures
        credited_from(g, f.update(k, d), c, i) + (if i <= k && g[k] == c && f[k] != Directive::Black {
            1nat
        } else {
            0nat
        }) == credited_from(g, f, c, i) + (if i <= k && g[k] == c && d != Directive::Black {
            1nat
        } else {
            0nat
        }),
    decreases g.len() - i,
{
    if i < g.len() {
        lemma_credited_update(g, f, c, i + 1, k, d);
    }
}

/// Resolving one more solution position raises the resolved count of its
/// letter by one.
proof fn lemma_resolved_update(s: Seq<u8>, resolved: Seq<bool>, c: u8, i: int, j: int)
    requires
        s.len() == resolved.len(),
        0 <= j < s.len(),
        !resolved[j],
        0 <= i <= s.len(),
    ensures
        resolved_from(s, resolved.update(j, true), c, i) == resolved_from(s, resolved, c, i) + (
        if i <= j && s[j] == c {
            1nat
        } else {
            0nat
        }),
    decreases s.len() - i,
{
    if i < s.len() {
        lemma_resolved_update(s, resolved, c, i + 1, j);
    }
}

/// Resolved occurrences of a letter never outnumber its occurrences.
proof fn lemma_resolved_le_count(s: Seq<u8>, resolved: Seq<bool>, c: u8, i: int)
    requires
        s.len() == resolved.len(),
        0 <= i,
    ensures
        resolved_from(s, resolved, c, i) <= count_from(s, c, i),
    decreases s.len() - i,
{
    if i < s.len() {
        lemma_resolved_le_count(s, resolved, c, i + 1);
    }
}

/// After the first pass, the credited occurrences of any letter equal its
/// resolved occurrences: both count the exact matches.
proof fn lemma_initial_balance(g: Seq<u8>, s: Seq<u8>, c: u8, i: int)
    requires
        g.len() == s.len(),
        0 <= i,
    ensures
        credited_from(g, initial_directives(g, s), c, i) == resolved_from(
            s,
            initial_resolved(g, s),
            c,
            i,
        ),
    decreases g.len() - i,
{
    if i < g.len() {
        lemma_initial_balance(g, s, c, i + 1);
    }
}

/// Through the second pass, every credit handed to a letter is matched by
/// one resolved occurrence of it in the solution.
proof fn lemma_mark_balance(
    g: Seq<u8>,
    s: Seq<u8>,
    dirs: Seq<Directive>,
    resolved: Seq<bool>,
    i: int,
    c: u8,
)
    requires
        g.len() == s.len(),
        dirs.len() == g.len(),
        resolved.len() == s.len(),
        0 <= i <= g.len(),
        forall|k: int| i <= k < g.len() ==> dirs[k] != Directive::Yellow,
        credited(g, dirs, c) == resolved_from(s, resolved, c, 0),
    ensures
        credited(g, mark_from(g, s, dirs, resolved, i).0, c) == resolved_from(
            s,
            mark_from(g, s, dirs, resolved, i).1,
            c,
            0,
        ),
    decreases g.len() - i,
{
    if i < g.len() {
        if dirs[i] == Directive::Green {
            lemma_mark_balance(g, s, dirs, resolved, i + 1, c);
        } else {
            lemma_find_props(s, resolved, g[i], 0);
            let j = find_unresolved(s, resolved, g[i], 0);
            if j < s.len() {
                let d2 = dirs.update(i, Directive::Yellow);
                let r2 = resolved.update(j, true);
                lemma_credited_update(g, dirs, c, 0, i, Directive::Yellow);
                lemma_resolved_update(s, resolved, c, 0, j);
                lemma_mark_balance(g, s, d2, r2, i + 1, c);
            } else {
                lemma_mark_balance(g, s, dirs, resolved, i + 1, c);
            }
        }
    }
}

/// No over-crediting of duplicates: the Green and Yellow directives
/// attributed to any letter of the guess never outnumber that letter's
/// occurrences in the solution.
pub proof fn lemma_no_over_credit(g: Seq<u8>, s: Seq<u8>, c: u8)
    requires
        g.len() == s.len(),
    ensures
        credited(g, feedback_spec(g, s), c) <= count_of(s, c),
{
    let d0 = initial_directives(g, s);
    let r0 = initial_resolved(g, s);
    lemma_initial_balance(g, s, c, 0);
    lemma_mark_balance(g, s, d0, r0, 0, c);
    lemma_mark_from_shape(g, s, d0, r0, 0);
    lemma_resolved_le_count(s, mark_from(g, s, d0, r0, 0).1, c, 0);
}

/// Every Yellow directive points at a letter the solution does hold.
proof fn lemma_mark_yellow(g: Seq<u8>, s: Seq<u8>, dirs: Seq<Directive>, resolved: Seq<bool>, i: int)
    requires
        g.len() == s.len(),
        dirs.len() == g.len(),
        resolved.len() == s.len(),
        0 <= i <= g.len(),
        forall|k: int| i <= k < g.len() ==> dirs[k] != Directive::Yellow,
    ensures
        forall|k: int|
            i <= k < g.len() && mark_from(g, s, dirs, resolved, i).0[k] == Directive::Yellow
                ==> s.contains(g[k]),
    decreases g.len() - i,
{
    if i < g.len() {
        let stepped = mark_step(g, s, dirs, resolved, i);
        let fin = mark_from(g, s, dirs, resolved, i);
        assert(fin == mark_from(g, s, stepped.0, stepped.1, i + 1));
        if dirs[i] == Directive::Green {
            lemma_mark_yellow(g, s, dirs, resolved, i + 1);
            lemma_mark_from_shape(g, s, dirs, resolved, i + 1);
        } else {
            lemma_find_props(s, resolved, g[i], 0);
            let j = find_unresolved(s, resolved, g[i], 0);
            if j < s.len() {
                let d2 = dirs.update(i, Directive::Yellow);
                let r2 = resolved.update(j, true);
                lemma_mark_yellow(g, s, d2, r2, i + 1);
                lemma_mark_from_shape(g, s, d2, r2, i + 1);
                assert(s[j] == g[i]);
                assert(s.contains(g[i]));
            } else {
                lemma_mark_yellow(g, s, dirs, resolved, i + 1);
                lemma_mark_from_shape(g, s, dirs, resolved, i + 1);
            }
        }
    }
}

/// With no repeated letters in the guess, every Black directive points at
/// a letter absent from the solution.
proof fn lemma_mark_black(g: Seq<u8>, s: Seq<u8>, dirs: Seq<Directive>, resolved: Seq<bool>, i: int)
    requires
        g.len() == s.len(),
        dirs.len() == g.len(),
        resolved.len() == s.len(),
        0 <= i <= g.len(),
        distinct_letters(g),
        forall|k: int| i <= k < g.len() ==> dirs[k] != Directive::Yellow,
        forall|k: int| 0 <= k < g.len() ==> (dirs[k] == Directive::Green <==> g[k] == s[k]),
        forall|j: int|
            0 <= j < s.len() && resolved[j] ==> (s[j] == g[j] || exists|i2: int|
                0 <= i2 < i && g[i2] == s[j]),
    ensures
        forall|k: int, j: int|
            i <= k < g.len() && 0 <= j < s.len() && mark_from(g, s, dirs, resolved, i).0[k]
                == Directive::Black ==> s[j] != g[k],
    decreases g.len() - i,
{
    if i < g.len() {
        let stepped = mark_step(g, s, dirs, resolved, i);
        let fin = mark_from(g, s, dirs, resolved, i);
        assert(fin == mark_from(g, s, stepped.0, stepped.1, i + 1));
        if dirs[i] == Directive::Green {
            lemma_mark_black(g, s, dirs, resolved, i + 1);
            lemma_mark_from_shape(g, s, dirs, resolved, i + 1);
            assert(fin.0[i] == Directive::Green);
        } else {
            lemma_find_props(s, resolved, g[i], 0);
            let j = find_unresolved(s, resolved, g[i], 0);
            if j < s.len() {
                let d2 = dirs.update(i, Directive::Yellow);
                let r2 = resolved.update(j, true);
                assert(forall|j2: int|
                    0 <= j2 < s.len() && r2[j2] ==> (s[j2] == g[j2] || exists|i2: int|
                        0 <= i2 < i + 1 && g[i2] == s[j2])) by {
                    assert(g[i] == s[j]);
                    assert(forall|j2: int|
                        0 <= j2 < s.len() && r2[j2] && j2 != j ==> resolved[j2]);
                }
                lemma_mark_black(g, s, d2, r2, i + 1);
                lemma_mark_from_shape(g, s, d2, r2, i + 1);
                assert(fin == mark_from(g, s, d2, r2, i + 1));
                assert(fin.0[i] == d2[i]);
                assert(fin.0[i] == Directive::Yellow);
            } else {
                lemma_mark_black(g, s, dirs, resolved, i + 1);
                lemma_mark_from_shape(g, s, dirs, resolved, i + 1);
                assert(fin.0[i] == dirs[i]);
                if dirs[i] == Directive::Black {
                    assert forall|j2: int| 0 <= j2 < s.len() implies s[j2] != g[i] by {
                        if s[j2] == g[i] {
                            assert(resolved[j2]);
                            if s[j2] == g[j2] {
                                assert(j2 == i);
                                assert(g[i] == s[i]);
                            } else {
                                let i2 = choose|i2: int| 0 <= i2 < i && g[i2] == s[j2];
                                assert(g[i2] == g[i]);
                            }
                        }
                    }
                }
            }
        }
    }
}

/// Positionwise reading of a feedback: Green marks an exact match, Yellow
/// a letter present elsewhere, and — for a guess without repeated
/// letters — Black a letter absent from the solution.
pub proof fn lemma_feedback_reading(g: Seq<u8>, s: Seq<u8>)
    requires
        g.len() == s.len(),
    ensures
        feedback_spec(g, s).len() == g.len(),
        forall|i: int|
            0 <= i < g.len() ==> (#[trigger] feedback_spec(g, s)[i] == Directive::Green <==> g[i]
                == s[i]),
        forall|i: int|
            0 <= i < g.len() && #[trigger] feedback_spec(g, s)[i] == Directive::Yellow
                ==> s.contains(g[i]),
        distinct_letters(g) ==> forall|i: int|
            0 <= i < g.len() && #[trigger] feedback_spec(g, s)[i] == Directive::Black
                ==> !s.contains(g[i]),
{
    let d0 = initial_directives(g, s);
    let r0 = initial_resolved(g, s);
    let f = feedback_spec(g, s);
    assert(f == mark_from(g, s, d0, r0, 0).0);
    lemma_mark_from_shape(g, s, d0, r0, 0);
    assert forall|i: int| 0 <= i < g.len() implies (#[trigger] f[i] == Directive::Green <==> g[i]
        == s[i]) by {
        assert(f[i] == Directive::Green <==> d0[i] == Directive::Green);
    }
    lemma_mark_yellow(g, s, d0, r0, 0);
    if distinct_letters(g) {
        lemma_mark_black(g, s, d0, r0, 0);
        assert forall|i: int|
            0 <= i < g.len() && #[trigger] feedback_spec(g, s)[i] == Directive::Black
        implies !s.contains(g[i]) by {
            assert(forall|j: int| 0 <= j < s.len() ==> s[j] != g[i]);
        }
    }
}

/// Round trip: parsing a lowercase feedback code and re-rendering it
/// yields the same code, and rendering any feedback and parsing the
/// rendition yields the same feedback.
pub proof fn lemma_code_round_trip(code: Seq<char>, f: Seq<Directive>)
    requires
        forall|i: int|
            0 <= i < code.len() ==> (#[trigger] code[i] == 'g' || code[i] == 'y' || code[i]
                == 'b'),
    ensures
        Seq::new(code.len(), |i: int| code_of_dir(dir_of_code(code[i])->Some_0)) =~= code,
        Seq::new(f.len(), |i: int| dir_of_code(code_of_dir(f[i]))->Some_0) =~= f,
{
}

/// The solution itself is always consistent with the feedback computed
/// for a guess without repeated letters: filtering a pool by
/// `Guess::matches` never drops the true solution for such guesses.
pub proof fn lemma_solution_matches(g: Seq<u8>, s: Seq<u8>)
    requires
        g.len() == s.len(),
        distinct_letters(g),
    ensures
        matches_spec(g, feedback_spec(g, s), s),
{
    lemma_feedback_reading(g, s);
    let f = feedback_spec(g, s);
    lemma_mark_from_shape(g, s, initial_directives(g, s), initial_resolved(g, s), 0);
    assert forall|i: int| 0 <= i < g.len() implies directive_matches(#[trigger] f[i], g, s, i) by {
        if f[i] == Directive::Yellow {
            assert(s.contains(g[i]));
            assert(g[i] != s[i]);
        }
    }
}

} // verus!
