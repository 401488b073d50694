//! The constraint model and the greedy solver: per-position letter sets,
//! a must-contain set, pool filtering and ranking.

use vstd::prelude::*;

use crate::chars::Char;
use crate::chars::Word;
use crate::chars::WORD_SIZE;
use crate::feedback::all_green;
use crate::feedback::feedback_spec;
use crate::feedback::Directive;
use crate::feedback::Guess;

verus! {

broadcast use crate::chars::lemma_word_view;

/// Whether bit `c` of a 26-bit letter mask is set.
pub open spec fn cs_has(bits: u32, c: u8) -> bool {
    c < 26 && bits & (1u32 << (c as u32)) != 0
}

/// How many of the bits `0..n` of a letter mask are set.
pub open spec fn cs_card_upto(bits: u32, n: int) -> nat
    decreases n,
{
    if n <= 0 {
        0
    } else {
        cs_card_upto(bits, n - 1) + (if cs_has(bits, (n - 1) as u8) {
            1nat
        } else {
            0nat
        })
    }
}

/// The cardinality of a letter mask.
pub open spec fn cs_card(bits: u32) -> nat {
    cs_card_upto(bits, 26)
}

proof fn lemma_bit_or(bits: u32, c: u32, d: u32)
    requires
        c < 26,
        d < 26,
    ensures
        ((bits | (1u32 << c)) & (1u32 << d) != 0) == (bits & (1u32 << d) != 0 || c == d),
        ((bits | (1u32 << c)) == bits) == (bits & (1u32 << c) != 0),
{
    assert(((bits | (1u32 << c)) & (1u32 << d) != 0) == (bits & (1u32 << d) != 0 || c == d)
        && ((bits | (1u32 << c)) == bits) == (bits & (1u32 << c) != 0)) by (bit_vector)
        requires
            c < 26,
            d < 26,
    ;
}

proof fn lemma_bit_clear(bits: u32, c: u32, d: u32)
    requires
        c < 26,
        d < 26,
    ensures
        ((bits & !(1u32 << c)) & (1u32 << d) != 0) == (bits & (1u32 << d) != 0 && c != d),
        ((bits & !(1u32 << c)) == bits) == (bits & (1u32 << c) == 0),
{
    assert(((bits & !(1u32 << c)) & (1u32 << d) != 0) == (bits & (1u32 << d) != 0 && c != d)
        && ((bits & !(1u32 << c)) == bits) == (bits & (1u32 << c) == 0)) by (bit_vector)
        requires
            c < 26,
            d < 26,
    ;
}

proof fn lemma_bit_zero(d: u32)
    requires
        d < 26,
    ensures
        0u32 & (1u32 << d) == 0,
{
    assert(0u32 & (1u32 << d) == 0) by (bit_vector);
}

/// A set of letters, stored as a 26-bit mask.
#[derive(Clone, Copy, PartialEq, Eq, Debug, Structural)]
pub struct CharSet {
    chars: u32,
}

impl View for CharSet {
    type V = u32;

    closed spec fn view(&self) -> u32 {
        self.chars
    }
}

impl CharSet {
    /// Whether the set holds letter `c`.
    pub open spec fn spec_has(self, c: u8) -> bool {
        cs_has(self@, c)
    }

    /// The set with no letters.
    pub fn empty() -> (r: CharSet)
        ensures
            r@ == 0u32,
            forall|c: u8| !(#[trigger] r.spec_has(c)),
    {
        let r = CharSet { chars: 0 };
        proof {
            assert forall|c: u8| !(#[trigger] r.spec_has(c)) by {
                if c < 26 {
                    lemma_bit_zero(c as u32);
                }
            }
        }
        r
    }

    /// The set of the whole alphabet.
    pub fn with_all() -> (r: CharSet)
        ensures
            forall|c: u8| #[trigger] r.spec_has(c) <==> c < 26,
    {
        let mut s = CharSet::empty();
        let mut i: u8 = 0;
        while i < 26
            invariant
                0 <= i <= 26,
                forall|c: u8| #[trigger] s.spec_has(c) <==> c < i,
            decreases 26 - i,
        {
            s.insert(Char::from_u8(i));
            i = i + 1;
        }
        s
    }

    /// How many letters the set holds; at most 26.
    pub fn len(&self) -> (r: usize)
        ensures
            r == cs_card(self@),
            r <= 26,
    {
        let mut count: usize = 0;
        let mut i: u8 = 0;
        while i < 26
            invariant
                0 <= i <= 26,
                count == cs_card_upto(self@, i as int),
                count <= i,
            decreases 26 - i,
        {
            if self.contains(Char::from_u8(i)) {
                count = count + 1;
            }
            i = i + 1;
        }
        count
    }

    /// Inserts letter `c`; reports whether the set changed.
    pub fn insert(&mut self, c: Char) -> (r: bool)
        ensures
            forall|d: u8| #[trigger] final(self).spec_has(d) <==> (old(self).spec_has(d) || d == c@),
            r == !old(self).spec_has(c@),
    {
        let o = c.ord();
        let m = 1u32 << (o as u32);
        let before = self.chars;
        self.chars = self.chars | m;
        proof {
            assert forall|d: u8| #[trigger] final(self).spec_has(d) <==> (old(self).spec_has(d)
                || d == c@) by {
                if d < 26 {
                    lemma_bit_or(before, o as u32, d as u32);
                }
            }
            lemma_bit_or(before, o as u32, o as u32);
        }
        before != self.chars
    }

    /// Removes letter `c`; reports whether the set changed.
    pub fn remove(&mut self, c: Char) -> (r: bool)
        ensures
            forall|d: u8| #[trigger] final(self).spec_has(d) <==> (old(self).spec_has(d) && d != c@),
            r == old(self).spec_has(c@),
    {
        let o = c.ord();
        let m = 1u32 << (o as u32);
        let before = self.chars;
        self.chars = self.chars & !m;
        proof {
            assert forall|d: u8| #[trigger] final(self).spec_has(d) <==> (old(self).spec_has(d)
                && d != c@) by {
                if d < 26 {
                    lemma_bit_clear(before, o as u32, d as u32);
                }
            }
            lemma_bit_clear(before, o as u32, o as u32);
        }
        before != self.chars
    }

    /// Whether the set holds letter `c`.
    pub fn contains(&self, c: Char) -> (r: bool)
        ensures
            r == self.spec_has(c@),
    {
        let o = c.ord();
        let m = 1u32 << (o as u32);
        self.chars & m != 0
    }

    /// Empties the set.
    pub fn clear(&mut self)
        ensures
            final(self)@ == 0u32,
            forall|c: u8| !(#[trigger] final(self).spec_has(c)),
    {
        self.chars = 0;
        proof {
            assert forall|c: u8| !(#[trigger] final(self).spec_has(c)) by {
                if c < 26 {
                    lemma_bit_zero(c as u32);
                }
            }
        }
    }

    /// The letters of the set: exactly its members, each once, in
    /// ascending alphabet order.
    pub fn iter(&self) -> (r: Vec<Char>)
        ensures
            r@.len() <= 26,
            forall|k: int|
                0 <= k < r@.len() ==> self.spec_has(#[trigger] r@[k]@),
            forall|c: u8| self.spec_has(c) ==> exists|k: int| 0 <= k < r@.len() && r@[k]@ == c,
            forall|k1: int, k2: int| 0 <= k1 < k2 < r@.len() ==> (#[trigger] r@[k1])@ < (#[trigger] r@[k2])@,
    {
        let mut out: Vec<Char> = Vec::new();
        let mut i: u8 = 0;
        while i < 26
            invariant
                0 <= i <= 26,
                out@.len() <= i,
                forall|k: int| 0 <= k < out@.len() ==> self.spec_has(#[trigger] out@[k]@),
                forall|c: u8| c < i && #[trigger] self.spec_has(c) ==> exists|k: int|
                    0 <= k < out@.len() && out@[k]@ == c,
                forall|k: int| 0 <= k < out@.len() ==> (#[trigger] out@[k])@ < i,
                forall|k1: int, k2: int|
                    0 <= k1 < k2 < out@.len() ==> (#[trigger] out@[k1])@ < (#[trigger] out@[k2])@,
            decreases 26 - i,
        {
            let ch = Char::from_u8(i);
            if self.contains(ch) {
                let ghost before = out@;
                out.push(ch);
                proof {
                    assert(out@[before.len() as int]@ == i);
                    assert forall|c: u8| c < i + 1 && #[trigger] self.spec_has(c)
                    implies exists|k: int| 0 <= k < out@.len() && out@[k]@ == c by {
                        if c < i {
                            let k = choose|k: int| 0 <= k < before.len() && before[k]@ == c;
                            assert(out@[k]@ == c);
                        } else {
                            assert(out@[before.len() as int]@ == c);
                        }
                    }
                }
            }
            i = i + 1;
        }
        out
    }
}

/// Whether some position `k` in `[lo, hi)` of the guess got a Black
/// directive for letter `c`.
pub open spec fn black_hits(w: Seq<u8>, f: Seq<Directive>, c: u8, lo: int, hi: int) -> bool {
    exists|k: int| lo <= k < hi && f[k] == Directive::Black && w[k] == c
}

/// Whether some position `k < hi` of the guess got a Yellow directive
/// for letter `c`.
pub open spec fn yellow_hits(w: Seq<u8>, f: Seq<Directive>, c: u8, hi: int) -> bool {
    exists|k: int| 0 <= k < hi && f[k] == Directive::Yellow && w[k] == c
}

/// Whether letter `c` remains allowed at position `i` after the first
/// `t` directives of guess `(w, f)` are applied, one position at a time,
/// to the constraints `pre`: a Green position is reset to its own letter
/// and then only thinned by later Black eliminations; any other position
/// keeps its prior set minus its own Yellow letter and minus every
/// Black-eliminated letter.
pub open spec fn pos_after(
    pre: Constraints,
    w: Seq<u8>,
    f: Seq<Directive>,
    t: int,
    i: int,
    c: u8,
) -> bool {
    if i < t && f[i] == Directive::Green {
        c == w[i] && !black_hits(w, f, c, i + 1, t)
    } else {
        pre.pos_has(i, c) && !(i < t && f[i] == Directive::Yellow && c == w[i]) && !black_hits(
            w,
            f,
            c,
            0,
            t,
        )
    }
}

/// Whether letter `c` is known present after the first `t` directives:
/// it was known before, or some Yellow directive named it.
pub open spec fn must_after(pre: Constraints, w: Seq<u8>, f: Seq<Directive>, t: int, c: u8) -> bool {
    pre.must_has(c) || yellow_hits(w, f, c, t)
}

/// The exact effect of `Constraints::add`: how `post` relates to `pre`
/// once all `WORD_SIZE` directives of guess `(w, f)` are applied.
pub open spec fn add_updates(pre: Constraints, post: Constraints, w: Seq<u8>, f: Seq<Directive>) -> bool {
    &&& forall|i: int, c: u8|
        0 <= i < WORD_SIZE && c < 26 ==> (#[trigger] post.pos_has(i, c) <==> pos_after(
            pre,
            w,
            f,
            WORD_SIZE as int,
            i,
            c,
        ))
    &&& forall|c: u8|
        c < 26 ==> (#[trigger] post.must_has(c) <==> must_after(pre, w, f, WORD_SIZE as int, c))
}

/// Whether word `w` meets the constraints: each letter allowed at its
/// position, and every must-contain letter present somewhere.
pub open spec fn satisfied_spec(cv: Constraints, w: Seq<u8>) -> bool {
    &&& forall|i: int| 0 <= i < w.len() ==> cv.pos_has(i, #[trigger] w[i])
    &&& forall|c: u8| #[trigger] cv.must_has(c) ==> w.contains(c)
}

proof fn lemma_black_hits_extend(w: Seq<u8>, f: Seq<Directive>, c: u8, lo: int, t: int)
    requires
        lo <= t,
    ensures
        black_hits(w, f, c, lo, t + 1) == (black_hits(w, f, c, lo, t) || (f[t]
            == Directive::Black && w[t] == c)),
{
    if black_hits(w, f, c, lo, t + 1) {
        let k = choose|k: int| lo <= k < t + 1 && f[k] == Directive::Black && w[k] == c;
        if k < t {
            assert(black_hits(w, f, c, lo, t));
        }
    }
    if black_hits(w, f, c, lo, t) {
        let k = choose|k: int| lo <= k < t && f[k] == Directive::Black && w[k] == c;
        assert(lo <= k < t + 1 && f[k] == Directive::Black && w[k] == c);
    }
    if f[t] == Directive::Black && w[t] == c {
        assert(lo <= t < t + 1 && f[t] == Directive::Black && w[t] == c);
    }
}

proof fn lemma_yellow_hits_extend(w: Seq<u8>, f: Seq<Directive>, c: u8, t: int)
    requires
        0 <= t,
    ensures
        yellow_hits(w, f, c, t + 1) == (yellow_hits(w, f, c, t) || (f[t] == Directive::Yellow
            && w[t] == c)),
{
    if yellow_hits(w, f, c, t + 1) {
        let k = choose|k: int| 0 <= k < t + 1 && f[k] == Directive::Yellow && w[k] == c;
        if k < t {
            assert(yellow_hits(w, f, c, t));
        }
    }
    if yellow_hits(w, f, c, t) {
        let k = choose|k: int| 0 <= k < t && f[k] == Directive::Yellow && w[k] == c;
        assert(0 <= k < t + 1 && f[k] == Directive::Yellow && w[k] == c);
    }
    if f[t] == Directive::Yellow && w[t] == c {
        assert(0 <= t < t + 1 && f[t] == Directive::Yellow && w[t] == c);
    }
}

/// Accumulated knowledge from the feedback seen so far: an allowed
/// letter set per position, plus the letters known to be present.
pub struct Constraints {
    positions: [CharSet; WORD_SIZE],
    must_have: CharSet,
}

impl Constraints {
    /// The allowed-letter mask at position `i`.
    pub closed spec fn spec_position(self, i: int) -> u32 {
        self.positions[i]@
    }

    /// The must-contain mask.
    pub closed spec fn spec_must(self) -> u32 {
        self.must_have@
    }

    /// Whether letter `c` is still allowed at position `i`.
    pub open spec fn pos_has(self, i: int, c: u8) -> bool {
        cs_has(self.spec_position(i), c)
    }

    /// Whether letter `c` is known to occur somewhere in the solution.
    pub open spec fn must_has(self, c: u8) -> bool {
        cs_has(self.spec_must(), c)
    }

    /// Fresh constraints: every letter allowed everywhere, nothing known
    /// present.
    pub fn new() -> (r: Constraints)
        ensures
            forall|i: int, c: u8| 0 <= i < WORD_SIZE ==> (#[trigger] r.pos_has(i, c) <==> c < 26),
            forall|c: u8| !(#[trigger] r.must_has(c)),
    {
        let full = CharSet::with_all();
        let none = CharSet::empty();
        let r = Constraints { positions: [full; WORD_SIZE], must_have: none };
        proof {
            assert forall|i: int, c: u8| 0 <= i < WORD_SIZE implies (#[trigger] r.pos_has(i, c)
                <==> c < 26) by {
                assert(r.spec_position(i) == full@);
                assert(full.spec_has(c) <==> c < 26);
            }
            assert forall|c: u8| !(#[trigger] r.must_has(c)) by {
                assert(r.spec_must() == none@);
                assert(!none.spec_has(c));
            }
        }
        r
    }

    /// Applies one completed guess: Green pins its position to the
    /// guessed letter, Yellow removes the letter there and records it as
    /// present, Black removes the letter from every position.
    pub fn add(&mut self, guess: &Guess)
        ensures
            add_updates(*old(self), *final(self), guess.spec_word()@, guess.spec_feedback()@),
    {
        let ghost pre = *self;
        let ghost w = guess.spec_word()@;
        let ghost f = guess.spec_feedback()@;
        let mut t: usize = 0;
        while t < WORD_SIZE
            invariant
                w == guess.spec_word()@,
                f == guess.spec_feedback()@,
                0 <= t <= WORD_SIZE,
                forall|i: int, c: u8|
                    0 <= i < WORD_SIZE && c < 26 ==> (#[trigger] self.pos_has(i, c) <==> pos_after(
                        pre,
                        w,
                        f,
                        t as int,
                        i,
                        c,
                    )),
                forall|c: u8|
                    c < 26 ==> (#[trigger] self.must_has(c) <==> must_after(pre, w, f, t as int, c)),
            decreases WORD_SIZE - t,
        {
            let ghost state_in = *self;
            let (d, ch) = guess.at(t);
            match d {
                Directive::Green => {
                    let mut p = self.positions[t];
                    p.clear();
                    p.insert(ch);
                    self.positions[t] = p;
                    proof {
                        assert(self.spec_position(t as int) == p@);
                        assert forall|i: int, c: u8| 0 <= i < WORD_SIZE && c < 26 implies (
                        #[trigger] self.pos_has(i, c) <==> pos_after(pre, w, f, t as int + 1, i, c))
                            by {
                            lemma_black_hits_extend(w, f, c, 0, t as int);
                            if i + 1 <= t {
                                lemma_black_hits_extend(w, f, c, i + 1, t as int);
                            }
                            if i == t {
                                assert(p.spec_has(c) <==> c == ch@);
                                assert(self.pos_has(i, c) == p.spec_has(c));
                                assert(self.pos_has(i, c) <==> c == w[t as int]);
                                assert(!black_hits(w, f, c, t as int + 1, t as int + 1));
                            } else {
                                assert(self.spec_position(i) == state_in.spec_position(i));
                                assert(state_in.pos_has(i, c) <==> pos_after(
                                    pre, w, f, t as int, i, c));
                            }
                        }
                        assert forall|c: u8| c < 26 implies (#[trigger] self.must_has(c)
                            <==> must_after(pre, w, f, t as int + 1, c)) by {
                            lemma_yellow_hits_extend(w, f, c, t as int);
                            assert(self.spec_must() == state_in.spec_must());
                            assert(state_in.must_has(c) <==> must_after(pre, w, f, t as int, c));
                            assert(self.must_has(c) <==> state_in.must_has(c));
                        }
                    }
                },
                Directive::Yellow => {
                    let mut p = self.positions[t];
                    let ghost p0 = p;
                    p.remove(ch);
                    self.positions[t] = p;
                    self.must_have.insert(ch);
                    proof {
                        assert(self.spec_position(t as int) == p@);
                        assert(p0@ == state_in.spec_position(t as int));
                        assert forall|i: int, c: u8| 0 <= i < WORD_SIZE && c < 26 implies (
                        #[trigger] self.pos_has(i, c) <==> pos_after(pre, w, f, t as int + 1, i, c))
                            by {
                            lemma_black_hits_extend(w, f, c, 0, t as int);
                            if i + 1 <= t {
                                lemma_black_hits_extend(w, f, c, i + 1, t as int);
                            }
                            if i == t {
                                assert(self.pos_has(i, c) == p.spec_has(c));
                                assert(self.pos_has(i, c) <==> (state_in.pos_has(i, c) && c != w[
                                    t as int
                                ]));
                            } else {
                                assert(self.spec_position(i) == state_in.spec_position(i));
                            }
                            assert(state_in.pos_has(i, c) <==> pos_after(pre, w, f, t as int, i, c));
                        }
                        assert forall|c: u8| c < 26 implies (#[trigger] self.must_has(c)
                            <==> must_after(pre, w, f, t as int + 1, c)) by {
                            lemma_yellow_hits_extend(w, f, c, t as int);
                            assert(self.must_have.spec_has(c) <==> (state_in.must_have.spec_has(c)
                                || c == ch@));
                            assert(self.must_has(c) == self.must_have.spec_has(c));
                            assert(state_in.must_has(c) == state_in.must_have.spec_has(c));
                            assert(state_in.must_has(c) <==> must_after(pre, w, f, t as int, c));
                        }
                    }
                },
                Directive::Black => {
                    let mut q: usize = 0;
                    while q < WORD_SIZE
                        invariant
                            w == guess.spec_word()@,
                            f == guess.spec_feedback()@,
                            0 <= t < WORD_SIZE,
                            0 <= q <= WORD_SIZE,
                            ch@ == w[t as int],
                            self.spec_must() == state_in.spec_must(),
                            forall|i: int, c: u8|
                                0 <= i < q && c < 26 ==> (#[trigger] self.pos_has(i, c) <==> (
                                state_in.pos_has(i, c) && c != w[t as int])),
                            forall|i: int, c: u8|
                                q <= i < WORD_SIZE && c < 26 ==> (#[trigger] self.pos_has(i, c)
                                    <==> state_in.pos_has(i, c)),
                        decreases WORD_SIZE - q,
                    {
                        let ghost iter_in = *self;
                        let mut p = self.positions[q];
                        let ghost p0 = p;
                        p.remove(ch);
                        self.positions[q] = p;
                        proof {
                            assert(self.spec_position(q as int) == p@);
                            assert(p0@ == iter_in.spec_position(q as int));
                            assert forall|i: int, c: u8| 0 <= i < q + 1 && c < 26 implies (
                            #[trigger] self.pos_has(i, c) <==> (state_in.pos_has(i, c) && c != w[
                                t as int
                            ])) by {
                                if i < q {
                                    assert(self.spec_position(i) == iter_in.spec_position(i));
                                    assert(self.pos_has(i, c) == iter_in.pos_has(i, c));
                                    assert(iter_in.pos_has(i, c) <==> (state_in.pos_has(i, c) && c
                                        != w[t as int]));
                                } else {
                                    assert(p.spec_has(c) <==> (p0.spec_has(c) && c != ch@));
                                    assert(self.pos_has(i, c) == p.spec_has(c));
                                    assert(p0.spec_has(c) == iter_in.pos_has(i, c));
                                    assert(iter_in.pos_has(i, c) <==> state_in.pos_has(i, c));
                                    assert(self.pos_has(i, c) <==> (iter_in.pos_has(i, c) && c
                                        != ch@));
                                }
                            }
                            assert forall|i: int, c: u8| q + 1 <= i < WORD_SIZE && c < 26 implies (
                            #[trigger] self.pos_has(i, c) <==> state_in.pos_has(i, c)) by {
                                assert(self.spec_position(i) == iter_in.spec_position(i));
                                assert(self.pos_has(i, c) == iter_in.pos_has(i, c));
                                assert(iter_in.pos_has(i, c) <==> state_in.pos_has(i, c));
                            }
                        }
                        q = q + 1;
                    }
                    proof {
                        assert forall|i: int, c: u8| 0 <= i < WORD_SIZE && c < 26 implies (
                        #[trigger] self.pos_has(i, c) <==> pos_after(pre, w, f, t as int + 1, i, c))
                            by {
                            lemma_black_hits_extend(w, f, c, 0, t as int);
                            if i + 1 <= t {
                                lemma_black_hits_extend(w, f, c, i + 1, t as int);
                            }
                            if i == t {
                                assert(!black_hits(w, f, c, t as int + 1, t as int + 1));
                            }
                            assert(self.pos_has(i, c) <==> (state_in.pos_has(i, c) && c != w[
                                t as int
                            ]));
                            assert(state_in.pos_has(i, c) <==> pos_after(pre, w, f, t as int, i, c));
                        }
                        assert forall|c: u8| c < 26 implies (#[trigger] self.must_has(c)
                            <==> must_after(pre, w, f, t as int + 1, c)) by {
                            lemma_yellow_hits_extend(w, f, c, t as int);
                            assert(self.must_has(c) == state_in.must_has(c));
                            assert(state_in.must_has(c) <==> must_after(pre, w, f, t as int, c));
                        }
                    }
                },
            }
            t = t + 1;
        }
    }

    /// Whether `word` meets the constraints.
    pub fn is_satisfied_by(&self, word: &Word) -> (r: bool)
        ensures
            r == satisfied_spec(*self, word@),
    {
        let mut i: usize = 0;
        while i < WORD_SIZE
            invariant
                0 <= i <= WORD_SIZE,
                forall|j: int| 0 <= j < i ==> self.pos_has(j, #[trigger] word@[j]),
            decreases WORD_SIZE - i,
        {
            let ch = word.at(i);
            if !self.position_at(i).contains(ch) {
                proof {
                    assert(!self.pos_has(i as int, word@[i as int]));
                }
                return false;
            }
            i = i + 1;
        }
        let mut c: u8 = 0;
        while c < 26
            invariant
                0 <= c <= 26,
                forall|j: int| 0 <= j < WORD_SIZE ==> self.pos_has(j, #[trigger] word@[j]),
                forall|d: u8| d < c && #[trigger] self.must_has(d) ==> word@.contains(d),
            decreases 26 - c,
        {
            let ch = Char::from_u8(c);
            if self.must_contains(ch) && !word.contains(ch) {
                return false;
            }
            c = c + 1;
        }
        proof {
            assert forall|d: u8| #[trigger] self.must_has(d) implies word@.contains(d) by {
                assert(d < 26);
            }
        }
        true
    }

    /// The allowed-letter set at position `i`.
    pub fn position_at(&self, i: usize) -> (r: CharSet)
        requires
            i < WORD_SIZE,
        ensures
            r@ == self.spec_position(i as int),
    {
        self.positions[i]
    }

    /// Whether letter `c` is known present.
    pub fn must_contains(&self, c: Char) -> (r: bool)
        ensures
            r == self.must_has(c@),
    {
        self.must_have.contains(c)
    }

    /// The index, among positions `0..t`, of the widest remaining letter
    /// set, later positions winning ties.
    pub open spec fn best_pos_upto(self, t: int) -> int
        decreases t,
    {
        if t <= 1 {
            0
        } else if cs_card(self.spec_position(t - 1)) >= cs_card(
            self.spec_position(self.best_pos_upto(t - 1)),
        ) {
            t - 1
        } else {
            self.best_pos_upto(t - 1)
        }
    }

    /// The allowed-letter set of the position that is still the most
    /// ambiguous: the one with the largest remaining cardinality (the
    /// last such position on ties).
    pub fn unique_chars(&self) -> (r: CharSet)
        ensures
            r@ == self.spec_position(self.best_pos_upto(WORD_SIZE as int)),
            forall|j: int|
                0 <= j < WORD_SIZE ==> cs_card(#[trigger] self.spec_position(j)) <= cs_card(r@),
    {
        let mut best: usize = 0;
        let mut i: usize = 1;
        while i < WORD_SIZE
            invariant
                0 <= best < i <= WORD_SIZE,
                1 <= i,
                best as int == self.best_pos_upto(i as int),
                forall|j: int|
                    0 <= j < i ==> cs_card(#[trigger] self.spec_position(j)) <= cs_card(
                        self.spec_position(best as int),
                    ),
            decreases WORD_SIZE - i,
        {
            if self.position_at(i).len() >= self.position_at(best).len() {
                best = i;
            }
            i = i + 1;
        }
        self.positions[best]
    }
}

/// How many letters of the alphabet both occur in `w` and lie in the
/// mask `bits`, looking at letters below `n`.
pub open spec fn inter_upto(w: Seq<u8>, bits: u32, n: int) -> nat
    decreases n,
{
    if n <= 0 {
        0
    } else {
        inter_upto(w, bits, n - 1) + (if w.contains((n - 1) as u8) && cs_has(bits, (n - 1) as u8) {
            1nat
        } else {
            0nat
        })
    }
}

/// The ranking score of a word: how many distinct letters it shares with
/// the letter set `bits`.
pub open spec fn score_spec(w: Seq<u8>, bits: u32) -> nat {
    inter_upto(w, bits, 26)
}

/// Scores a word against a letter set: one point for each distinct
/// letter of the word that the set holds.
pub fn score(word: &Word, chars: &CharSet) -> (r: u32)
    ensures
        r == score_spec(word@, chars@),
{
    let mut count: u32 = 0;
    let mut c: u8 = 0;
    while c < 26
        invariant
            0 <= c <= 26,
            count == inter_upto(word@, chars@, c as int),
            count <= c,
        decreases 26 - c,
    {
        let ch = Char::from_u8(c);
        if word.contains(ch) && chars.contains(ch) {
            count = count + 1;
        }
        c = c + 1;
    }
    count
}

/// Constraints tighten monotonically under `add`, provided each Green
/// directive names a letter still allowed at its position (which holds
/// whenever the guess came from the current pool): every per-position
/// set shrinks or stays, and the must-contain set grows or stays.
pub proof fn lemma_add_monotone(pre: Constraints, post: Constraints, w: Seq<u8>, f: Seq<Directive>)
    requires
        add_updates(pre, post, w, f),
        forall|i: int|
            0 <= i < WORD_SIZE && #[trigger] f[i] == Directive::Green ==> pre.pos_has(i, w[i]),
    ensures
        forall|i: int, c: u8|
            0 <= i < WORD_SIZE && #[trigger] post.pos_has(i, c) ==> pre.pos_has(i, c),
        forall|c: u8| #[trigger] pre.must_has(c) ==> post.must_has(c),
{
    assert forall|i: int, c: u8| 0 <= i < WORD_SIZE && #[trigger] post.pos_has(i, c)
    implies pre.pos_has(i, c) by {
        assert(c < 26);
        if i < WORD_SIZE && f[i] == Directive::Green {
            assert(c == w[i]);
        }
    }
    assert forall|c: u8| #[trigger] pre.must_has(c) implies post.must_has(c) by {
        assert(c < 26);
    }
}

/// The solution itself always meets the constraints tightened by the
/// feedback it produced, for a guess without repeated letters: filtering
/// a pool by the constraints never drops the true solution for such
/// guesses.
pub proof fn lemma_solution_satisfies_add(
    pre: Constraints,
    post: Constraints,
    g: Seq<u8>,
    s: Seq<u8>,
)
    requires
        g.len() == WORD_SIZE,
        s.len() == WORD_SIZE,
        add_updates(pre, post, g, feedback_spec(g, s)),
        crate::feedback::distinct_letters(g),
        satisfied_spec(pre, s),
    ensures
        satisfied_spec(post, s),
{
    let f = feedback_spec(g, s);
    crate::feedback::lemma_feedback_reading(g, s);
    assert forall|i: int| 0 <= i < s.len() implies post.pos_has(i, #[trigger] s[i]) by {
        assert(pre.pos_has(i, s[i]));
        assert(s[i] < 26);
        if f[i] == Directive::Green {
            assert(g[i] == s[i]);
            assert(!black_hits(g, f, s[i], i + 1, WORD_SIZE as int)) by {
                if black_hits(g, f, s[i], i + 1, WORD_SIZE as int) {
                    let k = choose|k: int|
                        i + 1 <= k < WORD_SIZE && f[k] == Directive::Black && g[k] == s[i];
                    assert(!s.contains(g[k]));
                    assert(s[i] == g[k]);
                }
            }
            assert(pos_after(pre, g, f, WORD_SIZE as int, i, s[i]));
        } else {
            assert(f[i] != Directive::Green);
            assert(g[i] != s[i]);
            assert(!black_hits(g, f, s[i], 0, WORD_SIZE as int)) by {
                if black_hits(g, f, s[i], 0, WORD_SIZE as int) {
                    let k = choose|k: int|
                        0 <= k < WORD_SIZE && f[k] == Directive::Black && g[k] == s[i];
                    assert(!s.contains(g[k]));
                    assert(s[i] == g[k]);
                }
            }
            assert(pos_after(pre, g, f, WORD_SIZE as int, i, s[i]));
        }
    }
    assert forall|c: u8| #[trigger] post.must_has(c) implies s.contains(c) by {
        assert(c < 26);
        if !pre.must_has(c) {
            assert(yellow_hits(g, f, c, WORD_SIZE as int));
            let k = choose|k: int| 0 <= k < WORD_SIZE && f[k] == Directive::Yellow && g[k] == c;
            assert(s.contains(g[k]));
        }
    }
}

proof fn lemma_contains_concat(a: Seq<Word>, b: Seq<Word>, y: Word)
    ensures
        (a + b).contains(y) <==> (a.contains(y) || b.contains(y)),
{
    if (a + b).contains(y) {
        let i = choose|i: int| 0 <= i < (a + b).len() && (a + b)[i] == y;
        if i < a.len() {
            assert(a[i] == y);
        } else {
            assert(b[i - a.len()] == y);
        }
    }
    if a.contains(y) {
        let i = choose|i: int| 0 <= i < a.len() && a[i] == y;
        assert((a + b)[i] == y);
    }
    if b.contains(y) {
        let i = choose|i: int| 0 <= i < b.len() && b[i] == y;
        assert((a + b)[a.len() + i] == y);
    }
}

/// Where a word lands when inserted into a pool already sorted by
/// descending score: before the first entry that does not outscore it.
pub open spec fn insert_desc(x: Word, s: Seq<Word>, bits: u32) -> Seq<Word>
    decreases s.len(),
{
    if s.len() == 0 {
        seq![x]
    } else if score_spec(s[0]@, bits) > score_spec(x@, bits) {
        seq![s[0]] + insert_desc(x, s.drop_first(), bits)
    } else {
        seq![x] + s
    }
}

/// The stable descending-score ordering of a pool: each word inserted,
/// right to left, into the sorted tail, so that equal scores keep their
/// original relative order.
pub open spec fn sort_desc(s: Seq<Word>, bits: u32) -> Seq<Word>
    decreases s.len(),
{
    if s.len() == 0 {
        Seq::empty()
    } else {
        insert_desc(s[0], sort_desc(s.drop_first(), bits), bits)
    }
}

proof fn lemma_insert_desc_props(x: Word, s: Seq<Word>, bits: u32)
    ensures
        insert_desc(x, s, bits).len() == s.len() + 1,
        forall|y: Word|
            #[trigger] insert_desc(x, s, bits).contains(y) <==> (y == x || s.contains(y)),
    decreases s.len(),
{
    if s.len() == 0 {
        assert forall|y: Word| #[trigger] insert_desc(x, s, bits).contains(y) <==> (y == x
            || s.contains(y)) by {
            if y == x {
                assert(insert_desc(x, s, bits)[0] == x);
            }
            if insert_desc(x, s, bits).contains(y) {
                let i = choose|i: int|
                    0 <= i < insert_desc(x, s, bits).len() && insert_desc(x, s, bits)[i] == y;
                assert(i == 0);
            }
        }
    } else if score_spec(s[0]@, bits) > score_spec(x@, bits) {
        lemma_insert_desc_props(x, s.drop_first(), bits);
        assert forall|y: Word| #[trigger] insert_desc(x, s, bits).contains(y) <==> (y == x
            || s.contains(y)) by {
            lemma_contains_concat(seq![s[0]], insert_desc(x, s.drop_first(), bits), y);
            assert(seq![s[0]].contains(y) <==> y == s[0]) by {
                if seq![s[0]].contains(y) {
                    let i = choose|i: int| 0 <= i < 1 && seq![s[0]][i] == y;
                    assert(i == 0);
                }
                assert(seq![s[0]][0] == s[0]);
            }
            assert(s.contains(y) <==> (y == s[0] || s.drop_first().contains(y))) by {
                if s.contains(y) {
                    let i = choose|i: int| 0 <= i < s.len() && s[i] == y;
                    if i > 0 {
                        assert(s.drop_first()[i - 1] == y);
                    }
                }
                if s.drop_first().contains(y) {
                    let i = choose|i: int|
                        0 <= i < s.drop_first().len() && s.drop_first()[i] == y;
                    assert(s[i + 1] == y);
                }
            }
        }
    } else {
        assert forall|y: Word| #[trigger] insert_desc(x, s, bits).contains(y) <==> (y == x
            || s.contains(y)) by {
            lemma_contains_concat(seq![x], s, y);
            assert(seq![x].contains(y) <==> y == x) by {
                if seq![x].contains(y) {
                    let i = choose|i: int| 0 <= i < 1 && seq![x][i] == y;
                    assert(i == 0);
                }
                assert(seq![x][0] == x);
            }
        }
    }
}

/// Ranking a pool keeps exactly its words: same length, same members.
pub proof fn lemma_sort_desc_props(s: Seq<Word>, bits: u32)
    ensures
        sort_desc(s, bits).len() == s.len(),
        forall|y: Word| #[trigger] sort_desc(s, bits).contains(y) <==> s.contains(y),
    decreases s.len(),
{
    if s.len() > 0 {
        lemma_sort_desc_props(s.drop_first(), bits);
        lemma_insert_desc_props(s[0], sort_desc(s.drop_first(), bits), bits);
        assert forall|y: Word| #[trigger] sort_desc(s, bits).contains(y) <==> s.contains(y) by {
            if s.contains(y) {
                let i = choose|i: int| 0 <= i < s.len() && s[i] == y;
                if i > 0 {
                    assert(s.drop_first()[i - 1] == y);
                }
            }
            if s.drop_first().contains(y) {
                let i = choose|i: int| 0 <= i < s.drop_first().len() && s.drop_first()[i] == y;
                assert(s[i + 1] == y);
            }
        }
    }
}

proof fn lemma_insert_desc_split(x: Word, s: Seq<Word>, bits: u32, j: int)
    requires
        0 <= j <= s.len(),
        forall|k: int| 0 <= k < j ==> score_spec((#[trigger] s[k])@, bits) > score_spec(x@, bits),
        j < s.len() ==> score_spec(s[j]@, bits) <= score_spec(x@, bits),
    ensures
        insert_desc(x, s, bits) =~= s.subrange(0, j) + seq![x] + s.subrange(j, s.len() as int),
    decreases j,
{
    if j == 0 {
        if s.len() == 0 {
            assert(insert_desc(x, s, bits) =~= s.subrange(0, 0) + seq![x] + s.subrange(0, 0));
        } else {
            assert(insert_desc(x, s, bits) =~= s.subrange(0, 0) + seq![x] + s.subrange(
                0,
                s.len() as int,
            ));
        }
    } else {
        assert(score_spec(s[0]@, bits) > score_spec(x@, bits));
        let tail = s.drop_first();
        assert(forall|k: int|
            0 <= k < j - 1 ==> score_spec((#[trigger] tail[k])@, bits) > score_spec(x@, bits));
        lemma_insert_desc_split(x, tail, bits, j - 1);
        assert(insert_desc(x, s, bits) =~= s.subrange(0, j) + seq![x] + s.subrange(
            j,
            s.len() as int,
        ));
    }
}

/// The words kept by the constraints, in pool order.
pub open spec fn filter_sat(s: Seq<Word>, cv: Constraints) -> Seq<Word>
    decreases s.len(),
{
    if s.len() == 0 {
        Seq::empty()
    } else {
        filter_sat(s.drop_last(), cv) + (if satisfied_spec(cv, s.last()@) {
            seq![s.last()]
        } else {
            Seq::empty()
        })
    }
}

/// Filtering keeps every satisfying word, drops every other, and
/// strictly shrinks a pool that held any unsatisfying word.
pub proof fn lemma_filter_sat_props(s: Seq<Word>, cv: Constraints)
    ensures
        filter_sat(s, cv).len() <= s.len(),
        forall|y: Word|
            #[trigger] filter_sat(s, cv).contains(y) <==> (s.contains(y) && satisfied_spec(
                cv,
                y@,
            )),
        (exists|i: int| 0 <= i < s.len() && !satisfied_spec(cv, (#[trigger] s[i])@))
            ==> filter_sat(s, cv).len() < s.len(),
    decreases s.len(),
{
    if s.len() > 0 {
        let head = s.drop_last();
        lemma_filter_sat_props(head, cv);
        let kept = if satisfied_spec(cv, s.last()@) {
            seq![s.last()]
        } else {
            Seq::<Word>::empty()
        };
        assert forall|y: Word| #[trigger] filter_sat(s, cv).contains(y) <==> (s.contains(y)
            && satisfied_spec(cv, y@)) by {
            lemma_contains_concat(filter_sat(head, cv), kept, y);
            assert(kept.contains(y) <==> (y == s.last() && satisfied_spec(cv, y@))) by {
                if kept.contains(y) {
                    let i = choose|i: int| 0 <= i < kept.len() && kept[i] == y;
                    assert(i == 0);
                }
                if satisfied_spec(cv, s.last()@) {
                    assert(kept[0] == s.last());
                }
            }
            assert(s.contains(y) <==> (head.contains(y) || y == s.last())) by {
                if s.contains(y) {
                    let i = choose|i: int| 0 <= i < s.len() && s[i] == y;
                    if i < s.len() - 1 {
                        assert(head[i] == y);
                    }
                }
                if head.contains(y) {
                    let i = choose|i: int| 0 <= i < head.len() && head[i] == y;
                    assert(s[i] == y);
                }
                assert(s[s.len() - 1] == s.last());
            }
        }
        if exists|i: int| 0 <= i < s.len() && !satisfied_spec(cv, (#[trigger] s[i])@) {
            let i = choose|i: int| 0 <= i < s.len() && !satisfied_spec(cv, (#[trigger] s[i])@);
            if i == s.len() - 1 {
                assert(kept.len() == 0);
            } else {
                assert(head[i] == s[i]);
                assert(filter_sat(head, cv).len() < head.len());
            }
        }
    }
}

/// An ordered pool of candidate words.
#[derive(Debug)]
pub struct Words {
    words: Vec<Word>,
}

impl View for Words {
    type V = Seq<Word>;

    closed spec fn view(&self) -> Seq<Word> {
        self.words@
    }
}

impl Words {
    /// Wraps a word list as a pool, keeping its order.
    pub fn from_vec(words: Vec<Word>) -> (r: Words)
        ensures
            r@ == words@,
    {
        Words { words }
    }

    /// The words of the pool, in order.
    pub fn words(&self) -> (r: &Vec<Word>)
        ensures
            r@ == self@,
    {
        &self.words
    }

    /// How many words the pool holds.
    pub fn len(&self) -> (r: usize)
        ensures
            r == self@.len(),
    {
        self.words.len()
    }

    /// The pool's current best candidate: its first word, if any.
    pub fn first(&self) -> (r: Option<Word>)
        ensures
            match r {
                Some(w) => self@.len() > 0 && w == self@[0],
                None => self@.len() == 0,
            },
    {
        if self.words.len() == 0 {
            None
        } else {
            Some(self.words[0])
        }
    }

    /// An order-preserving copy of the pool.
    pub fn duplicate(&self) -> (r: Words)
        ensures
            r@ == self@,
    {
        let mut out: Vec<Word> = Vec::new();
        let mut i: usize = 0;
        while i < self.words.len()
            invariant
                0 <= i <= self.words.len(),
                out@ =~= self@.subrange(0, i as int),
            decreases self.words.len() - i,
        {
            out.push(self.words[i]);
            i = i + 1;
        }
        proof {
            assert(out@ =~= self@);
        }
        Words { words: out }
    }

    /// Reorders the pool by descending score against `chars`, stably:
    /// ties keep their original relative order.
    pub fn rank(&mut self, chars: &CharSet)
        ensures
            final(self)@ == sort_desc(old(self)@, chars@),
    {
        let ghost orig = self.words@;
        let n = self.words.len();
        let mut out: Vec<Word> = Vec::new();
        let mut i: usize = n;
        while i > 0
            invariant
                0 <= i <= n,
                n == self.words.len(),
                self.words@ == orig,
                out@ == sort_desc(orig.subrange(i as int, n as int), chars@),
            decreases i,
        {
            i = i - 1;
            let x = self.words[i];
            let sx = score(&x, chars);
            let ghost sorted_tail = out@;
            let mut j: usize = 0;
            while j < out.len() && score(&out[j], chars) > sx
                invariant
                    0 <= j <= out.len(),
                    out@ == sorted_tail,
                    sx == score_spec(x@, chars@),
                    forall|k: int|
                        0 <= k < j ==> score_spec((#[trigger] out@[k])@, chars@) > score_spec(
                            x@,
                            chars@,
                        ),
                decreases out.len() - j,
            {
                j = j + 1;
            }
            out.insert(j, x);
            proof {
                lemma_insert_desc_split(x, sorted_tail, chars@, j as int);
                assert(out@ =~= sorted_tail.subrange(0, j as int) + seq![x]
                    + sorted_tail.subrange(j as int, sorted_tail.len() as int));
                assert(out@ == insert_desc(x, sorted_tail, chars@));
                assert(orig.subrange(i as int, n as int).drop_first() =~= orig.subrange(
                    i as int + 1,
                    n as int,
                ));
                assert(orig.subrange(i as int, n as int)[0] == x);
            }
        }
        proof {
            assert(orig.subrange(0, n as int) =~= orig);
        }
        self.words = out;
    }

    /// Consumes the pool, keeping only the words that meet the
    /// constraints, in order.
    pub fn filter_into(self, constraints: &Constraints) -> (r: Words)
        ensures
            r@ == filter_sat(self@, *constraints),
    {
        let ghost orig = self.words@;
        let mut out: Vec<Word> = Vec::new();
        let mut i: usize = 0;
        let n = self.words.len();
        while i < n
            invariant
                0 <= i <= n,
                n == self.words.len(),
                self.words@ == orig,
                out@ == filter_sat(orig.subrange(0, i as int), *constraints),
            decreases n - i,
        {
            let w = self.words[i];
            let ghost prefix = orig.subrange(0, i as int);
            let ghost prefix1 = orig.subrange(0, i as int + 1);
            if constraints.is_satisfied_by(&w) {
                out.push(w);
            }
            proof {
                assert(prefix1.drop_last() =~= prefix);
                assert(prefix1.last() == w);
            }
            i = i + 1;
        }
        proof {
            assert(orig.subrange(0, n as int) =~= orig);
        }
        Words { words: out }
    }
}

/// One completed (or abandoned) game: the guesses in the order they
/// were made.
#[derive(Debug)]
pub struct Solution {
    guesses: Vec<Guess>,
}

impl View for Solution {
    type V = Seq<Guess>;

    closed spec fn view(&self) -> Seq<Guess> {
        self.guesses@
    }
}

impl Solution {
    /// Wraps a transcript of guesses.
    pub fn new(guesses: Vec<Guess>) -> (r: Solution)
        ensures
            r@ == guesses@,
    {
        Solution { guesses }
    }

    /// How many guesses the game took.
    pub fn number_of_guesses(&self) -> (r: usize)
        ensures
            r == self@.len(),
    {
        self.guesses.len()
    }

    /// The guesses, in order.
    pub fn guesses(&self) -> (r: &Vec<Guess>)
        ensures
            r@ == self@,
    {
        &self.guesses
    }
}

/// Reorders the pool by descending score against the most ambiguous
/// position's remaining letters.
pub fn rank(words: &mut Words, constraints: &Constraints)
    ensures
        final(words)@ == sort_desc(
            old(words)@,
            constraints.spec_position(constraints.best_pos_upto(WORD_SIZE as int)),
        ),
{
    let chars = constraints.unique_chars();
    words.rank(&chars);
}

/// Whether every word of the pool spells five pairwise-different
/// letters.
pub open spec fn all_distinct_pool(words: Seq<Word>) -> bool {
    forall|i: int|
        0 <= i < words.len() ==> crate::feedback::distinct_letters((#[trigger] words[i])@)
}

/// Whether some word of the pool spells `s`.
pub open spec fn has_solution(words: Seq<Word>, s: Seq<u8>) -> bool {
    exists|i: int| 0 <= i < words.len() && (#[trigger] words[i])@ == s
}

/// Greedy play: repeatedly guess the pool's first word, tighten the
/// constraints with the feedback, then re-rank and filter the pool,
/// until a guess comes back all Green or the pool runs empty. A
/// returned transcript records honest feedback for every guess, ends
/// with the all-Green guess of the solution itself, and holds no
/// premature all-Green round.
pub fn solve(words: &Words, solution: &Word) -> (r: Option<Solution>)
    ensures
        words@.len() == 0 ==> r is None,
        r matches Some(sol) ==> {
            &&& sol@.len() >= 1
            &&& forall|k: int|
                0 <= k < sol@.len() ==> (#[trigger] sol@[k]).spec_feedback()@ == feedback_spec(
                    sol@[k].spec_word()@,
                    solution@,
                )
            &&& all_green(sol@[sol@.len() - 1].spec_feedback()@)
            &&& sol@[sol@.len() - 1].spec_word()@ =~= solution@
            &&& forall|k: int|
                0 <= k < sol@.len() - 1 ==> !all_green((#[trigger] sol@[k]).spec_feedback()@)
            &&& sol@[0].spec_word() == words@[0]
            &&& sol@.len() <= words@.len()
            &&& forall|k: int|
                0 <= k < sol@.len() ==> words@.contains((#[trigger] sol@[k]).spec_word())
        },
        all_distinct_pool(words@) && has_solution(words@, solution@) ==> r is Some,
{
    let mut constraints = Constraints::new();
    let mut candidates = words.duplicate();
    let mut guesses: Vec<Guess> = Vec::new();
    let ghost hyp = all_distinct_pool(words@) && has_solution(words@, solution@);
    proof {
        use_type_invariant(solution);
        crate::chars::lemma_word_bounds(*solution);
        assert forall|i: int| 0 <= i < solution@.len() implies constraints.pos_has(
            i,
            #[trigger] solution@[i],
        ) by {
            assert(solution@[i] < 26);
        }
        assert(satisfied_spec(constraints, solution@));
    }
    loop
        invariant
            hyp == (all_distinct_pool(words@) && has_solution(words@, solution@)),
            solution@.len() == WORD_SIZE,
            forall|k: int|
                0 <= k < guesses@.len() ==> (#[trigger] guesses@[k]).spec_feedback()@
                    == feedback_spec(guesses@[k].spec_word()@, solution@),
            forall|k: int|
                0 <= k < guesses@.len() ==> !all_green(
                    (#[trigger] guesses@[k]).spec_feedback()@,
                ),
            guesses@.len() == 0 ==> candidates@ == words@,
            guesses@.len() > 0 ==> words@.len() > 0 && guesses@[0].spec_word() == words@[0],
            guesses@.len() + candidates@.len() <= words@.len(),
            forall|w: Word| #[trigger] candidates@.contains(w) ==> words@.contains(w),
            forall|k: int|
                0 <= k < guesses@.len() ==> words@.contains((#[trigger] guesses@[k]).spec_word()),
            hyp ==> satisfied_spec(constraints, solution@),
            hyp ==> has_solution(candidates@, solution@),
            hyp ==> all_distinct_pool(candidates@),
        decreases candidates@.len(),
    {
        let word = match candidates.first() {
            Some(w) => w,
            None => {
                proof {
                    if hyp {
                        let i = choose|i: int|
                            0 <= i < candidates@.len() && (#[trigger] candidates@[i])@
                                == solution@;
                        assert(false);
                    }
                }
                return None;
            },
        };
        let guess = Guess::new(&word, solution);
        proof {
            assert(candidates@.contains(word)) by {
                assert(candidates@[0] == word);
            }
            assert(words@.contains(word));
        }
        guesses.push(guess);
        if guess.is_all_green() {
            proof {
                crate::feedback::lemma_all_green_iff_equal(word@, solution@);
            }
            let sol = Solution::new(guesses);
            return Some(sol);
        }
        let ghost pre = constraints;
        constraints.add(&guess);
        proof {
            use_type_invariant(&word);
            crate::chars::lemma_word_bounds(word);
            lemma_guess_eliminated(pre, constraints, word@, solution@);
        }
        proof {
            if hyp {
                assert(crate::feedback::distinct_letters(word@)) by {
                    assert(candidates@[0] == word);
                    assert(candidates@.contains(word)) by {
                        assert(candidates@[0] == word);
                    }
                }
                lemma_solution_satisfies_add(pre, constraints, word@, solution@);
            }
        }
        let ghost before_rank = candidates@;
        rank(&mut candidates, &constraints);
        let ghost ranked = candidates@;
        candidates = candidates.filter_into(&constraints);
        proof {
            let bits = constraints.spec_position(constraints.best_pos_upto(WORD_SIZE as int));
            lemma_sort_desc_props(before_rank, bits);
            assert(before_rank.contains(word)) by {
                assert(before_rank[0] == word);
            }
            assert(ranked.contains(word));
            let i = choose|i: int| 0 <= i < ranked.len() && ranked[i] == word;
            assert(!satisfied_spec(constraints, (ranked[i])@));
            lemma_filter_sat_props(ranked, constraints);
            assert(candidates@.len() < ranked.len());
            assert forall|w: Word| #[trigger] candidates@.contains(w)
            implies words@.contains(w) by {
                assert(ranked.contains(w));
                assert(before_rank.contains(w));
            }
            if hyp {
                let s = choose|s: int|
                    0 <= s < before_rank.len() && (#[trigger] before_rank[s])@ == solution@;
                let sw = before_rank[s];
                assert(before_rank.contains(sw)) by {
                    assert(before_rank[s] == sw);
                }
                assert(ranked.contains(sw));
                assert(satisfied_spec(constraints, sw@));
                assert(candidates@.contains(sw));
                let s2 = choose|s2: int| 0 <= s2 < candidates@.len() && candidates@[s2] == sw;
                assert(has_solution(candidates@, solution@)) by {
                    assert(candidates@[s2]@ == solution@);
                }
                assert forall|k: int| 0 <= k < candidates@.len()
                implies crate::feedback::distinct_letters((#[trigger] candidates@[k])@) by {
                    let y = candidates@[k];
                    assert(candidates@.contains(y)) by {
                        assert(candidates@[k] == y);
                    }
                    assert(ranked.contains(y));
                    assert(before_rank.contains(y));
                    let b = choose|b: int| 0 <= b < before_rank.len() && before_rank[b] == y;
                    assert(crate::feedback::distinct_letters(before_rank[b]@));
                }
            }
        }
    }
}

/// A guessed word that did not come back all Green never meets the
/// constraints tightened by its own feedback: each round strictly
/// shrinks the pool.
pub proof fn lemma_guess_eliminated(pre: Constraints, post: Constraints, g: Seq<u8>, s: Seq<u8>)
    requires
        g.len() == WORD_SIZE,
        s.len() == WORD_SIZE,
        forall|i: int| 0 <= i < WORD_SIZE ==> #[trigger] g[i] < 26,
        add_updates(pre, post, g, feedback_spec(g, s)),
        !all_green(feedback_spec(g, s)),
    ensures
        !satisfied_spec(post, g),
{
    let f = feedback_spec(g, s);
    crate::feedback::lemma_feedback_reading(g, s);
    let i = choose|i: int| 0 <= i < f.len() && f[i] != Directive::Green;
    assert(!pos_after(pre, g, f, WORD_SIZE as int, i, g[i])) by {
        if f[i] == Directive::Yellow {
        } else {
            assert(f[i] == Directive::Black);
            assert(black_hits(g, f, g[i], 0, WORD_SIZE as int)) by {
                assert(0 <= i < WORD_SIZE && f[i] == Directive::Black && g[i] == g[i]);
            }
        }
    }
    assert(!post.pos_has(i, g[i]));
}

} // verus!
