//! Decision trees: a guess per node, a child per feedback pattern.
//! Built bottom-up by a depth-bounded backtracking search, replayed
//! top-down in one lookup per round, or imported from strategy text.

use vstd::prelude::*;

use crate::chars::all_lower;
use crate::chars::word_of_str;
use crate::chars::ParseError;
use crate::chars::Word;
use crate::chars::WORD_SIZE;
use crate::feedback::all_codes;
use crate::feedback::dir_of_code;
use crate::feedback::feedback_spec;
use crate::feedback::Directive;
use crate::feedback::Feedback;
use crate::feedback::Guess;

verus! {

broadcast use crate::chars::lemma_word_view, vstd::std_specs::vec::axiom_vec_index_decreases;

/// Whether some word of `s` spells `w`.
pub open spec fn pool_has(s: Seq<Word>, w: Seq<u8>) -> bool {
    exists|i: int| 0 <= i < s.len() && (#[trigger] s[i])@ == w
}

/// Whether some word of `group` lies in the solution set.
pub open spec fn any_solution(group: Seq<Word>, sols: Seq<Word>) -> bool {
    exists|i: int| 0 <= i < group.len() && pool_has(sols, (#[trigger] group[i])@)
}

/// Whether no two children carry the same feedback key.
pub open spec fn keys_distinct(children: Seq<(Feedback, Node)>) -> bool {
    forall|a: int, b: int|
        0 <= a < b < children.len() ==> (#[trigger] children[a]).0@ != (#[trigger] children[b]).0@
}

/// The first child keyed by feedback `f`, scanning from `i`.
pub open spec fn lookup_from(children: Seq<(Feedback, Node)>, f: Seq<Directive>, i: int) -> Option<
    Node,
>
    decreases children.len() - i,
{
    if i < 0 || i >= children.len() {
        None
    } else if children[i].0@ == f {
        Some(children[i].1)
    } else {
        lookup_from(children, f, i + 1)
    }
}

proof fn lemma_lookup_prefix(children: Seq<(Feedback, Node)>, f: Seq<Directive>, j: int)
    requires
        0 <= j <= children.len(),
        forall|k: int| 0 <= k < j ==> (#[trigger] children[k]).0@ != f,
    ensures
        lookup_from(children, f, 0) == lookup_from(children, f, j),
    decreases j,
{
    if j > 0 {
        lemma_lookup_prefix(children, f, j - 1);
        assert(lookup_from(children, f, j - 1) == lookup_from(children, f, j));
    }
}

/// A decision-tree node: the word to guess here, and, unless this is a
/// leaf, a child for each feedback pattern a real solution can produce.
#[derive(Debug)]
pub struct Node {
    word: Word,
    next: Option<Vec<(Feedback, Node)>>,
}

impl Node {
    /// The word guessed at this node.
    pub closed spec fn spec_word(self) -> Word {
        self.word
    }

    /// Whether this node is a leaf: its guess is expected to be the
    /// solution itself.
    pub closed spec fn is_leaf(self) -> bool {
        self.next is None
    }

    /// The child replaying feedback `f` would descend to.
    pub closed spec fn spec_next(self, f: Seq<Directive>) -> Option<Node> {
        match self.next {
            None => None,
            Some(v) => lookup_from(v@, f, 0),
        }
    }

    /// Structural soundness: no two children of any node share a
    /// feedback key.
    pub closed spec fn wf(self) -> bool
        decreases self,
    {
        match self.next {
            None => true,
            Some(v) => {
                &&& keys_distinct(v@)
                &&& forall|i: int| 0 <= i < v@.len() ==> (#[trigger] v@[i]).1.wf()
            },
        }
    }

    /// Whether the tree under this node resolves within `budget` more
    /// guesses.
    pub closed spec fn depth_ok(self, budget: int) -> bool
        decreases self,
    {
        budget >= 1 && match self.next {
            None => true,
            Some(v) => forall|i: int| 0 <= i < v@.len() ==> (#[trigger] v@[i]).1.depth_ok(budget - 1),
        }
    }

    /// A leaf for `word`: it has no children, so every lookup misses.
    pub fn new(word: &Word) -> (r: Node)
        ensures
            r.spec_word() == *word,
            r.is_leaf(),
            r.wf(),
            forall|b: int| b >= 1 ==> #[trigger] r.depth_ok(b),
            forall|f: Seq<Directive>| #[trigger] r.spec_next(f) is None,
    {
        Node { word: *word, next: None }
    }

    /// The word guessed at this node.
    pub fn word(&self) -> (r: &Word)
        ensures
            *r == self.spec_word(),
    {
        &self.word
    }

    /// The children of an inner node, as feedback-keyed pairs; `None`
    /// at a leaf.
    pub closed spec fn spec_children(self) -> Seq<(Feedback, Node)> {
        self.next->Some_0@
    }

    /// The feedback-keyed children of this node; `None` at a leaf.
    pub fn children(&self) -> (r: Option<&Vec<(Feedback, Node)>>)
        ensures
            r is Some <==> !self.is_leaf(),
            r matches Some(v) ==> v@ == self.spec_children(),
    {
        match &self.next {
            None => None,
            Some(v) => Some(v),
        }
    }

    /// Looks up the child for an observed feedback; `None` means no
    /// real solution of the build set produces this pattern here.
    pub fn next(&self, feedback: &Feedback) -> (r: Option<&Node>)
        ensures
            match r {
                Some(n) => self.spec_next(feedback@) == Some(*n),
                None => self.spec_next(feedback@) is None,
            },
    {
        match &self.next {
            None => None,
            Some(v) => {
                let mut i: usize = 0;
                while i < v.len()
                    invariant
                        self.next == Some(*v),
                        0 <= i <= v.len(),
                        forall|k: int| 0 <= k < i ==> (#[trigger] v@[k]).0@ != feedback@,
                    decreases v.len() - i,
                {
                    if v[i].0.same_as(feedback) {
                        proof {
                            lemma_lookup_prefix(v@, feedback@, i as int);
                            assert(v@[i as int].0@ == feedback@);
                            assert(lookup_from(v@, feedback@, i as int) == Some(v@[i as int].1));
                            assert(self.spec_next(feedback@) == lookup_from(v@, feedback@, 0));
                        }
                        return Some(&v[i].1);
                    }
                    i = i + 1;
                }
                proof {
                    lemma_lookup_prefix(v@, feedback@, v@.len() as int);
                    assert(self.spec_next(feedback@) == lookup_from(v@, feedback@, 0));
                }
                None
            },
        }
    }
}

/// Whether replaying the tree from `n` against solution `w` reaches a
/// node guessing `w` within `fuel` rounds: at each node the feedback of
/// its guess against `w` selects the child to descend to.
pub open spec fn solves(n: Node, w: Word, fuel: int) -> bool
    decreases fuel,
{
    if fuel <= 0 {
        false
    } else if n.spec_word()@ == w@ {
        true
    } else {
        match n.spec_next(feedback_spec(n.spec_word()@, w@)) {
            Some(c) => solves(c, w, fuel - 1),
            None => false,
        }
    }
}

/// Whether the partition `children` of the pool rest, for guess `g`,
/// holds `w` in the group keyed by `w`'s own feedback.
pub open spec fn covered(children: Seq<(Feedback, Vec<Word>)>, g: Word, w: Word) -> bool {
    exists|t: int|
        0 <= t < children.len() && (#[trigger] children[t]).0@ == feedback_spec(g@, w@)
            && children[t].1@.contains(w)
}

proof fn lemma_lookup_some_index(children: Seq<(Feedback, Node)>, f: Seq<Directive>)
    requires
        lookup_from(children, f, 0) is Some,
    ensures
        exists|t: int|
            0 <= t < children.len() && (#[trigger] children[t]).0@ == f && lookup_from(
                children,
                f,
                0,
            ) == Some(children[t].1),
{
    lemma_lookup_some_from(children, f, 0);
}

proof fn lemma_lookup_some_from(children: Seq<(Feedback, Node)>, f: Seq<Directive>, i: int)
    requires
        0 <= i,
        lookup_from(children, f, i) is Some,
    ensures
        exists|t: int|
            i <= t < children.len() && (#[trigger] children[t]).0@ == f && lookup_from(
                children,
                f,
                i,
            ) == Some(children[t].1),
    decreases children.len() - i,
{
    if i < children.len() {
        if children[i].0@ == f {
            assert(lookup_from(children, f, i) == Some(children[i].1));
        } else {
            lemma_lookup_some_from(children, f, i + 1);
            let t = choose|t: int|
                i + 1 <= t < children.len() && (#[trigger] children[t]).0@ == f && lookup_from(
                    children,
                    f,
                    i + 1,
                ) == Some(children[t].1);
            assert(lookup_from(children, f, i) == lookup_from(children, f, i + 1));
        }
    }
}

proof fn lemma_lookup_unique(children: Seq<(Feedback, Node)>, f: Seq<Directive>, t: int)
    requires
        keys_distinct(children),
        0 <= t < children.len(),
        children[t].0@ == f,
    ensures
        lookup_from(children, f, 0) == Some(children[t].1),
{
    assert forall|k: int| 0 <= k < t implies (#[trigger] children[k]).0@ != f by {
        assert(children[k].0@ != children[t].0@);
    }
    lemma_lookup_prefix(children, f, t);
}

/// Whether no two word groups carry the same feedback key.
pub open spec fn group_keys_distinct(children: Seq<(Feedback, Vec<Word>)>) -> bool {
    forall|a: int, b: int|
        0 <= a < b < children.len() ==> (#[trigger] children[a]).0@ != (#[trigger] children[b]).0@
}

/// Whether no group of `a` shares a feedback key with a group of `b`.
pub open spec fn cross_keys_distinct(
    a: Seq<(Feedback, Vec<Word>)>,
    b: Seq<(Feedback, Vec<Word>)>,
) -> bool {
    forall|i: int, j: int|
        0 <= i < a.len() && 0 <= j < b.len() ==> (#[trigger] a[i]).0@ != (#[trigger] b[j]).0@
}

proof fn lemma_gkd_remove(s: Seq<(Feedback, Vec<Word>)>, m: int)
    requires
        group_keys_distinct(s),
        0 <= m < s.len(),
    ensures
        group_keys_distinct(s.remove(m)),
        forall|j: int|
            0 <= j < s.remove(m).len() ==> (#[trigger] s.remove(m)[j]) == (if j < m {
                s[j]
            } else {
                s[j + 1]
            }),
{
    let t = s.remove(m);
    assert forall|a: int, b: int| 0 <= a < b < t.len() implies (#[trigger] t[a]).0@ != (
    #[trigger] t[b]).0@ by {
        let a2 = if a < m { a } else { a + 1 };
        let b2 = if b < m { b } else { b + 1 };
        assert(t[a] == s[a2]);
        assert(t[b] == s[b2]);
    }
}

/// Exchanging two entries of a pool keeps its multiset of words.
proof fn lemma_swap_multiset(s: Seq<Word>, a: int, b: int)
    requires
        0 <= a < s.len(),
        0 <= b < s.len(),
    ensures
        s.update(a, s[b]).update(b, s[a]).to_multiset() == s.to_multiset(),
{
    broadcast use vstd::seq_lib::group_to_multiset_ensures, vstd::multiset::group_multiset_axioms, vstd::multiset::group_multiset_properties;

    let s1 = s.update(a, s[b]);
    let t = s1.update(b, s[a]);
    assert(s.contains(s[a]));
    assert(s.contains(s[b]));
    assert(s1[b] == s[b]);
    assert(t.to_multiset() =~= s.to_multiset());
}

/// Exchanging two entries of a pool keeps exactly its words.
proof fn lemma_swap_contains(s: Seq<Word>, a: int, b: int)
    requires
        0 <= a < s.len(),
        0 <= b < s.len(),
    ensures
        forall|w: Word|
            #[trigger] s.update(a, s[b]).update(b, s[a]).contains(w) <==> s.contains(w),
{
    let t = s.update(a, s[b]).update(b, s[a]);
    assert forall|w: Word| #[trigger] t.contains(w) <==> s.contains(w) by {
        if s.contains(w) {
            let k = choose|k: int| 0 <= k < s.len() && s[k] == w;
            if k == b {
                assert(t[a] == w || t[b] == w);
            } else if k == a {
                assert(t[b] == w);
            } else {
                assert(t[k] == w);
            }
        }
        if t.contains(w) {
            let k = choose|k: int| 0 <= k < t.len() && t[k] == w;
            if k == b {
                assert(s[a] == w);
            } else if k == a {
                assert(s[b] == w);
            } else {
                assert(s[k] == w);
            }
        }
    }
}

/// The index of the first group keyed `fb`, or the length when none is.
fn find_group(children: &Vec<(Feedback, Vec<Word>)>, fb: &Feedback) -> (r: usize)
    ensures
        r <= children@.len(),
        r < children@.len() ==> children@[r as int].0@ == fb@,
        forall|m: int| 0 <= m < r ==> (#[trigger] children@[m]).0@ != fb@,
{
    let mut k: usize = 0;
    while k < children.len()
        invariant
            0 <= k <= children@.len(),
            forall|m: int| 0 <= m < k ==> (#[trigger] children@[m]).0@ != fb@,
        decreases children@.len() - k,
    {
        if children[k].0.same_as(fb) {
            return k;
        }
        k = k + 1;
    }
    k
}

fn build_node(
    word: &Word,
    children: Vec<(Feedback, Vec<Word>)>,
    solutions: &Vec<Word>,
    depth: usize,
) -> (r: Option<Node>)
    requires
        depth < 5,
        group_keys_distinct(children@),
    ensures
        r matches Some(n) ==> n.wf() && n.depth_ok(5 - depth) && n.spec_word() == *word,
        r matches Some(n) ==> forall|w: Word|
            covered(children@, *word, w) && pool_has(solutions@, w@) ==> solves(n, w, 5 - depth),
        r matches Some(n) ==> {
            &&& !n.is_leaf()
            &&& n.spec_children().len() == children@.len()
            &&& forall|t: int|
                0 <= t < children@.len() ==> (#[trigger] n.spec_children()[t]).0 == children@[t].0
            &&& forall|t: int|
                0 <= t < children@.len() ==> children@[t].1@.contains(
                    (#[trigger] n.spec_children()[t]).1.spec_word(),
                )
        },
    decreases 5 - depth, 0int,
{
    let ghost orig = children@;
    let mut pending = children;
    let mut nodes: Vec<(Feedback, Node)> = Vec::new();
    proof {
        assert(pending@ =~= orig.subrange(0, orig.len() as int));
    }
    while pending.len() > 0
        invariant
            depth < 5,
            nodes@.len() + pending@.len() == orig.len(),
            pending@ =~= orig.subrange(nodes@.len() as int, orig.len() as int),
            forall|t: int|
                0 <= t < nodes@.len() ==> (#[trigger] nodes@[t]).0 == orig[t].0 && orig[t].1@.contains(
                    nodes@[t].1.spec_word(),
                ),
            group_keys_distinct(pending@),
            keys_distinct(nodes@),
            forall|i: int, j: int|
                0 <= i < nodes@.len() && 0 <= j < pending@.len() ==> (#[trigger] nodes@[i]).0@ != (
                #[trigger] pending@[j]).0@,
            forall|i: int|
                0 <= i < nodes@.len() ==> (#[trigger] nodes@[i]).1.wf() && nodes@[i].1.depth_ok(
                    5 - depth - 1,
                ),
            forall|w: Word|
                covered(orig, *word, w) && pool_has(solutions@, w@) ==> covered(
                    pending@,
                    *word,
                    w,
                ) || (exists|t: int|
                    0 <= t < nodes@.len() && (#[trigger] nodes@[t]).0@ == feedback_spec(
                        word@,
                        w@,
                    ) && solves(nodes@[t].1, w, 5 - depth - 1)),
        decreases pending@.len(),
    {
        let ghost pend0 = pending@;
        let (fb, mut grp) = pending.remove(0);
        let ghost grp0 = grp@;
        proof {
            lemma_gkd_remove(pend0, 0);
        }
        match Node::build(&mut grp, solutions, depth + 1) {
            Some(nd) => {
                let ghost nodes0 = nodes@;
                nodes.push((fb, nd));
                proof {
                    assert(pending@ =~= orig.subrange(nodes@.len() as int, orig.len() as int));
                    assert(pend0[0] == orig[nodes0.len() as int]);
                    assert(grp0.contains(nd.spec_word()));
                    assert forall|t: int| 0 <= t < nodes@.len() implies (#[trigger] nodes@[t]).0
                        == orig[t].0 && orig[t].1@.contains(nodes@[t].1.spec_word()) by {
                        if t < nodes0.len() {
                            assert(nodes@[t] == nodes0[t]);
                        } else {
                            assert(nodes@[t] == (fb, nd));
                            assert(orig[t] == pend0[0]);
                        }
                    }
                    assert forall|a: int, b: int| 0 <= a < b < nodes@.len() implies (
                    #[trigger] nodes@[a]).0@ != (#[trigger] nodes@[b]).0@ by {
                        if b < nodes0.len() {
                            assert(nodes@[a] == nodes0[a] && nodes@[b] == nodes0[b]);
                        } else {
                            assert(nodes@[a] == nodes0[a] && nodes@[b] == (fb, nd));
                            assert(fb == pend0[0].0);
                        }
                    }
                    assert forall|w: Word| covered(orig, *word, w) && pool_has(solutions@, w@)
                    implies covered(pending@, *word, w) || (exists|t: int|
                        0 <= t < nodes@.len() && (#[trigger] nodes@[t]).0@ == feedback_spec(
                            word@,
                            w@,
                        ) && solves(nodes@[t].1, w, 5 - depth - 1)) by {
                        if covered(pend0, *word, w) {
                            let t = choose|t: int|
                                0 <= t < pend0.len() && (#[trigger] pend0[t]).0@ == feedback_spec(
                                    word@,
                                    w@,
                                ) && pend0[t].1@.contains(w);
                            if t == 0 {
                                assert(grp0.contains(w));
                                assert(solves(nd, w, 5 - (depth + 1)));
                                assert(nodes@[nodes0.len() as int] == (fb, nd));
                                assert(nodes@[nodes0.len() as int].0@ == feedback_spec(word@, w@));
                            } else {
                                assert(pending@[t - 1] == pend0[t]);
                                assert(covered(pending@, *word, w));
                            }
                        } else {
                            let t = choose|t: int|
                                0 <= t < nodes0.len() && (#[trigger] nodes0[t]).0@
                                    == feedback_spec(word@, w@) && solves(
                                    nodes0[t].1,
                                    w,
                                    5 - depth - 1,
                                );
                            assert(nodes@[t] == nodes0[t]);
                        }
                    }
                }
            },
            None => {
                return None;
            },
        }
    }
    let node = Node { word: *word, next: Some(nodes) };
    proof {
        assert(node.wf());
        assert(node.depth_ok(5 - depth));
        assert(node.spec_children() == nodes@);
        assert(nodes@.len() == orig.len());
        assert forall|w: Word| covered(orig, *word, w) && pool_has(solutions@, w@)
        implies solves(node, w, 5 - depth) by {
            if node.spec_word()@ != w@ {
                let t = choose|t: int|
                    0 <= t < nodes@.len() && (#[trigger] nodes@[t]).0@ == feedback_spec(
                        word@,
                        w@,
                    ) && solves(nodes@[t].1, w, 5 - depth - 1);
                lemma_lookup_unique(nodes@, feedback_spec(word@, w@), t);
                assert(node.spec_next(feedback_spec(node.spec_word()@, w@)) == Some(nodes@[t].1));
            }
        }
    }
    Some(node)
}

impl Node {
    /// The depth-bounded backtracking search: finds the first guess in
    /// pool order that splits the rest of the pool into feedback
    /// classes, each solvable within one less round — trying small
    /// classes first and skipping classes no real solution produces —
    /// and returns its node, or `None` when no guess works within the
    /// budget.
    pub fn build(guesses: &mut Vec<Word>, solutions: &Vec<Word>, depth: usize) -> (r: Option<
        Node,
    >)
        ensures
            final(guesses)@.len() == old(guesses)@.len(),
            final(guesses)@.to_multiset() == old(guesses)@.to_multiset(),
            forall|w: Word| #[trigger] final(guesses)@.contains(w) <==> old(guesses)@.contains(w),
            depth >= 5 ==> r is None && final(guesses)@ == old(guesses)@,
            depth < 5 && old(guesses)@.len() == 0 ==> r is None && final(guesses)@ == old(
                guesses,
            )@,
            depth < 5 && old(guesses)@.len() == 1 ==> (r matches Some(n) && n.spec_word() == old(
                guesses,
            )@[0] && n.is_leaf() && final(guesses)@ == old(guesses)@ && (forall|f: Seq<Directive>|
                #[trigger] n.spec_next(f) is None)),
            r matches Some(n) ==> final(guesses)@.len() > 0 && n.spec_word()
                == final(guesses)@[0],
            r matches Some(n) ==> n.wf() && n.depth_ok(5 - depth) && old(guesses)@.contains(
                n.spec_word(),
            ),
            r matches Some(n) ==> forall|w: Word|
                old(guesses)@.contains(w) && pool_has(solutions@, w@) ==> solves(n, w, 5 - depth),
        decreases 5 - depth, 1int,
    {
        if depth >= 5 {
            return None;
        }
        if guesses.len() == 1 {
            let n = Node::new(&guesses[0]);
            proof {
                assert(old(guesses)@.contains(old(guesses)@[0]));
                assert forall|w: Word| old(guesses)@.contains(w) && pool_has(solutions@, w@)
                implies solves(n, w, 5 - depth) by {
                    let m = choose|m: int| 0 <= m < old(guesses)@.len() && old(guesses)@[m] == w;
                    assert(w == old(guesses)@[0]);
                    assert(n.spec_word()@ == w@);
                }
            }
            return Some(n);
        }
        let mut i: usize = 0;
        while i < guesses.len()
            invariant
                depth < 5,
                old(guesses)@.len() != 1,
                guesses@.len() == old(guesses)@.len(),
                guesses@.to_multiset() == old(guesses)@.to_multiset(),
                forall|w: Word| #[trigger] guesses@.contains(w) <==> old(guesses)@.contains(w),
                0 <= i,
            decreases guesses@.len() - i,
        {
            let ghost before_swap = guesses@;
            let a = guesses[0];
            let b = guesses[i];
            guesses.set(0, b);
            guesses.set(i, a);
            proof {
                lemma_swap_contains(before_swap, 0, i as int);
                lemma_swap_multiset(before_swap, 0, i as int);
                assert(guesses@ == before_swap.update(0, before_swap[i as int]).update(
                    i as int,
                    before_swap[0],
                ));
            }
            let guess = guesses[0];
            let ghost pool_snap = guesses@;

            let mut children: Vec<(Feedback, Vec<Word>)> = Vec::new();
            let mut j: usize = 1;
            while j < guesses.len()
                invariant
                    1 <= j <= guesses@.len(),
                    guesses@ == pool_snap,
                    guess == pool_snap[0],
                    group_keys_distinct(children@),
                    forall|m: int| 1 <= m < j ==> covered(children@, guess, #[trigger] pool_snap[m]),
                decreases guesses@.len() - j,
            {
                let fb = Feedback::from_word(&guess, &guesses[j]);
                let k = find_group(&children, &fb);
                if k < children.len() {
                    let ghost kids0 = children@;
                    let (key, mut grp) = children.remove(k);
                    let ghost grp0 = grp@;
                    grp.push(guesses[j]);
                    children.insert(k, (key, grp));
                    proof {
                        lemma_gkd_remove(kids0, k as int);
                        assert(children@ =~= kids0.update(k as int, (key, grp)));
                        assert forall|x: int, y: int| 0 <= x < y < children@.len() implies (
                        #[trigger] children@[x]).0@ != (#[trigger] children@[y]).0@ by {
                            assert(children@[x].0 == kids0[x].0);
                            assert(children@[y].0 == kids0[y].0);
                        }
                        assert(grp@ == grp0.push(pool_snap[j as int]));
                        assert forall|m: int| 1 <= m < j + 1 implies covered(
                            children@,
                            guess,
                            #[trigger] pool_snap[m],
                        ) by {
                            if m < j {
                                let w = pool_snap[m];
                                let t = choose|t: int|
                                    0 <= t < kids0.len() && (#[trigger] kids0[t]).0@
                                        == feedback_spec(guess@, w@) && kids0[t].1@.contains(w);
                                if t == k {
                                    let x = choose|x: int| 0 <= x < grp0.len() && grp0[x] == w;
                                    assert(children@[k as int].1@[x] == w);
                                    assert(children@[k as int].1@.contains(w));
                                } else {
                                    assert(children@[t] == kids0[t]);
                                }
                            } else {
                                let w = pool_snap[j as int];
                                assert(children@[k as int].0@ == fb@);
                                assert(fb@ == feedback_spec(guess@, w@));
                                assert(children@[k as int].1@[grp0.len() as int] == w);
                                assert(children@[k as int].1@.contains(w));
                            }
                        }
                    }
                } else {
                    let ghost kids0 = children@;
                    let mut grp: Vec<Word> = Vec::new();
                    grp.push(guesses[j]);
                    children.push((fb, grp));
                    proof {
                        assert forall|x: int, y: int| 0 <= x < y < children@.len() implies (
                        #[trigger] children@[x]).0@ != (#[trigger] children@[y]).0@ by {
                            if y < kids0.len() {
                                assert(children@[x] == kids0[x] && children@[y] == kids0[y]);
                            } else {
                                assert(children@[x] == kids0[x]);
                                assert(children@[y].0 == fb);
                            }
                        }
                        assert forall|m: int| 1 <= m < j + 1 implies covered(
                            children@,
                            guess,
                            #[trigger] pool_snap[m],
                        ) by {
                            if m < j {
                                let w = pool_snap[m];
                                let t = choose|t: int|
                                    0 <= t < kids0.len() && (#[trigger] kids0[t]).0@
                                        == feedback_spec(guess@, w@) && kids0[t].1@.contains(w);
                                assert(children@[t] == kids0[t]);
                            } else {
                                let w = pool_snap[j as int];
                                assert(children@[kids0.len() as int].0@ == feedback_spec(
                                    guess@,
                                    w@,
                                ));
                                assert(children@[kids0.len() as int].1@[0] == w);
                                assert(children@[kids0.len() as int].1@.contains(w));
                            }
                        }
                    }
                }
                j = j + 1;
            }

            let mut kept: Vec<(Feedback, Vec<Word>)> = Vec::new();
            while children.len() > 0
                invariant
                    group_keys_distinct(children@),
                    group_keys_distinct(kept@),
                    cross_keys_distinct(kept@, children@),
                    forall|m: int|
                        1 <= m < pool_snap.len() && pool_has(
                            solutions@,
                            (#[trigger] pool_snap[m])@,
                        ) ==> covered(kept@, guess, pool_snap[m]) || covered(
                            children@,
                            guess,
                            pool_snap[m],
                        ),
                decreases children@.len(),
            {
                let ghost kids0 = children@;
                let ghost kept0 = kept@;
                let (fb, grp) = children.remove(0);
                proof {
                    lemma_gkd_remove(kids0, 0);
                }
                if group_has_solution(&grp, solutions) {
                    kept.push((fb, grp));
                    proof {
                        assert forall|m: int|
                            1 <= m < pool_snap.len() && pool_has(
                                solutions@,
                                (#[trigger] pool_snap[m])@,
                            ) implies covered(kept@, guess, pool_snap[m]) || covered(
                            children@,
                            guess,
                            pool_snap[m],
                        ) by {
                            let w = pool_snap[m];
                            if covered(kept0, guess, w) {
                                let x = choose|x: int|
                                    0 <= x < kept0.len() && (#[trigger] kept0[x]).0@
                                        == feedback_spec(guess@, w@) && kept0[x].1@.contains(w);
                                assert(kept@[x] == kept0[x]);
                            } else if covered(kids0, guess, w) {
                                let x = choose|x: int|
                                    0 <= x < kids0.len() && (#[trigger] kids0[x]).0@
                                        == feedback_spec(guess@, w@) && kids0[x].1@.contains(w);
                                if x == 0 {
                                    assert(kept@[kept0.len() as int] == (fb, grp));
                                    assert(covered(kept@, guess, w));
                                } else {
                                    assert(children@[x - 1] == kids0[x]);
                                    assert(covered(children@, guess, w));
                                }
                            }
                        }
                        assert forall|x: int, y: int| 0 <= x < y < kept@.len() implies (
                        #[trigger] kept@[x]).0@ != (#[trigger] kept@[y]).0@ by {
                            if y < kept0.len() {
                                assert(kept@[x] == kept0[x] && kept@[y] == kept0[y]);
                            } else {
                                assert(kept@[x] == kept0[x]);
                                assert(kept@[y].0 == fb && fb == kids0[0].0);
                            }
                        }
                        assert forall|x: int, y: int|
                            0 <= x < kept@.len() && 0 <= y < children@.len() implies (
                        #[trigger] kept@[x]).0@ != (#[trigger] children@[y]).0@ by {
                            assert(children@[y] == kids0[y + 1]);
                            if x < kept0.len() {
                                assert(kept@[x] == kept0[x]);
                            } else {
                                assert(kept@[x].0 == kids0[0].0);
                            }
                        }
                    }
                } else {
                    proof {
                        assert forall|x: int, y: int|
                            0 <= x < kept@.len() && 0 <= y < children@.len() implies (
                        #[trigger] kept@[x]).0@ != (#[trigger] children@[y]).0@ by {
                            assert(children@[y] == kids0[y + 1]);
                        }
                        assert forall|m: int|
                            1 <= m < pool_snap.len() && pool_has(
                                solutions@,
                                (#[trigger] pool_snap[m])@,
                            ) implies covered(kept@, guess, pool_snap[m]) || covered(
                            children@,
                            guess,
                            pool_snap[m],
                        ) by {
                            let w = pool_snap[m];
                            if covered(kept0, guess, w) {
                                assert(kept@ == kept0);
                            } else if covered(kids0, guess, w) {
                                let x = choose|x: int|
                                    0 <= x < kids0.len() && (#[trigger] kids0[x]).0@
                                        == feedback_spec(guess@, w@) && kids0[x].1@.contains(w);
                                if x == 0 {
                                    let y = choose|y: int|
                                        0 <= y < grp@.len() && (#[trigger] grp@[y]) == w;
                                    assert(pool_has(solutions@, grp@[y]@));
                                    assert(any_solution(grp@, solutions@));
                                    assert(false);
                                } else {
                                    assert(children@[x - 1] == kids0[x]);
                                    assert(covered(children@, guess, w));
                                }
                            }
                        }
                    }
                }
            }

            let mut sorted: Vec<(Feedback, Vec<Word>)> = Vec::new();
            while kept.len() > 0
                invariant
                    group_keys_distinct(kept@),
                    group_keys_distinct(sorted@),
                    cross_keys_distinct(sorted@, kept@),
                    forall|m: int|
                        1 <= m < pool_snap.len() && pool_has(
                            solutions@,
                            (#[trigger] pool_snap[m])@,
                        ) ==> covered(sorted@, guess, pool_snap[m]) || covered(
                            kept@,
                            guess,
                            pool_snap[m],
                        ),
                decreases kept@.len(),
            {
                let mut m: usize = 0;
                let mut k: usize = 1;
                while k < kept.len()
                    invariant
                        0 <= m < kept@.len(),
                        m < k,
                    decreases kept@.len() - k,
                {
                    if kept[k].1.len() < kept[m].1.len() {
                        m = k;
                    }
                    k = k + 1;
                }
                let ghost kept0 = kept@;
                let ghost sorted0 = sorted@;
                let (fb, grp) = kept.remove(m);
                proof {
                    lemma_gkd_remove(kept0, m as int);
                }
                sorted.push((fb, grp));
                proof {
                    assert forall|x: int, y: int| 0 <= x < y < sorted@.len() implies (
                    #[trigger] sorted@[x]).0@ != (#[trigger] sorted@[y]).0@ by {
                        if y < sorted0.len() {
                            assert(sorted@[x] == sorted0[x] && sorted@[y] == sorted0[y]);
                        } else {
                            assert(sorted@[x] == sorted0[x]);
                            assert(sorted@[y].0 == kept0[m as int].0);
                        }
                    }
                    assert forall|x: int, y: int|
                        0 <= x < sorted@.len() && 0 <= y < kept@.len() implies (
                    #[trigger] sorted@[x]).0@ != (#[trigger] kept@[y]).0@ by {
                        let y2 = if y < m { y } else { y + 1 };
                        assert(kept@[y] == kept0[y2]);
                        if x < sorted0.len() {
                            assert(sorted@[x] == sorted0[x]);
                        } else {
                            assert(sorted@[x].0 == kept0[m as int].0);
                        }
                    }
                    assert forall|w_ix: int|
                        1 <= w_ix < pool_snap.len() && pool_has(
                            solutions@,
                            (#[trigger] pool_snap[w_ix])@,
                        ) implies covered(sorted@, guess, pool_snap[w_ix]) || covered(
                        kept@,
                        guess,
                        pool_snap[w_ix],
                    ) by {
                        let w = pool_snap[w_ix];
                        if covered(sorted0, guess, w) {
                            let x = choose|x: int|
                                0 <= x < sorted0.len() && (#[trigger] sorted0[x]).0@
                                    == feedback_spec(guess@, w@) && sorted0[x].1@.contains(w);
                            assert(sorted@[x] == sorted0[x]);
                        } else if covered(kept0, guess, w) {
                            let x = choose|x: int|
                                0 <= x < kept0.len() && (#[trigger] kept0[x]).0@ == feedback_spec(
                                    guess@,
                                    w@,
                                ) && kept0[x].1@.contains(w);
                            if x == m {
                                assert(sorted@[sorted0.len() as int] == (fb, grp));
                                assert(covered(sorted@, guess, w));
                            } else {
                                let x2 = if x < m {
                                    x
                                } else {
                                    x - 1
                                };
                                assert(kept@[x2] == kept0[x]);
                                assert(covered(kept@, guess, w));
                            }
                        }
                    }
                }
            }

            let ghost sorted_snap = sorted@;
            match build_node(&guess, sorted, solutions, depth) {
                Some(node) => {
                    proof {
                        assert(guesses@.contains(guess)) by {
                            assert(guesses@[0] == guess);
                        }
                        assert forall|w: Word|
                            old(guesses)@.contains(w) && pool_has(solutions@, w@)
                        implies solves(node, w, 5 - depth) by {
                            assert(guesses@.contains(w));
                            let m = choose|m: int|
                                0 <= m < guesses@.len() && guesses@[m] == w;
                            assert(pool_snap[m] == w);
                            if m == 0 {
                                assert(node.spec_word()@ == w@);
                            } else {
                                assert(covered(sorted_snap, guess, pool_snap[m]));
                            }
                        }
                    }
                    return Some(node);
                },
                None => {},
            }
            i = i + 1;
        }
        None
    }
}

/// Whether replaying the feedbacks of `gs[from..]` from `n` meets a
/// child at every step.
pub open spec fn has_path(n: Node, gs: Seq<Guess>, from: int) -> bool
    decreases gs.len() - from,
{
    if from < 0 || from >= gs.len() {
        true
    } else {
        match n.spec_next(gs[from].spec_feedback()@) {
            Some(c) => has_path(c, gs, from + 1),
            None => false,
        }
    }
}

/// The index of the first child of `children` keyed `f`, scanning from
/// `i`; the length when none is.
pub open spec fn find_key_from(children: Seq<(Feedback, Node)>, f: Seq<Directive>, i: int) -> int
    decreases children.len() - i,
{
    if i < 0 || i >= children.len() {
        children.len() as int
    } else if children[i].0@ == f {
        i
    } else {
        find_key_from(children, f, i + 1)
    }
}

proof fn lemma_find_key_prefix(children: Seq<(Feedback, Node)>, f: Seq<Directive>, j: int)
    requires
        0 <= j <= children.len(),
        forall|m: int| 0 <= m < j ==> (#[trigger] children[m]).0@ != f,
    ensures
        find_key_from(children, f, 0) == find_key_from(children, f, j),
    decreases j,
{
    if j > 0 {
        lemma_find_key_prefix(children, f, j - 1);
        assert(find_key_from(children, f, j - 1) == find_key_from(children, f, j));
    }
}

/// The children of a node, a leaf counting as having none.
pub open spec fn children_of(n: Node) -> Seq<(Feedback, Node)> {
    if n.is_leaf() {
        Seq::empty()
    } else {
        n.spec_children()
    }
}

/// A leaf for `w`, as a spec value.
pub closed spec fn fresh_leaf(w: Word) -> Node {
    Node { word: w, next: None }
}

/// What a fresh leaf is: it guesses `w` and has no children.
pub proof fn lemma_fresh_leaf(w: Word)
    ensures
        fresh_leaf(w).spec_word() == w,
        fresh_leaf(w).is_leaf(),
        fresh_leaf(w).wf(),
        forall|f: Seq<Directive>| #[trigger] fresh_leaf(w).spec_next(f) is None,
{
}

/// Exactly how splicing a guess path transforms a tree. Once the path
/// is exhausted, nothing changes. Otherwise the node keeps its word and
/// all children except the one keyed by the current guess's feedback:
/// that child is descended into in place when present (keeping its own
/// word), and appended as a fresh leaf labelled with the guess's word
/// when absent.
pub open spec fn spliced(before: Node, after: Node, gs: Seq<Guess>, from: int) -> bool
    decreases gs.len() - from,
{
    if from < 0 || from >= gs.len() {
        after == before
    } else {
        let f = gs[from].spec_feedback();
        let kids = children_of(before);
        let k = find_key_from(kids, f@, 0);
        &&& after.spec_word() == before.spec_word()
        &&& !after.is_leaf()
        &&& if k < kids.len() {
            &&& after.spec_children() =~= kids.update(k, (kids[k].0, after.spec_children()[k].1))
            &&& spliced(kids[k].1, after.spec_children()[k].1, gs, from + 1)
        } else {
            &&& after.spec_children() =~= kids.push((f, after.spec_children()[kids.len() as int].1))
            &&& spliced(
                fresh_leaf(gs[from].spec_word()),
                after.spec_children()[kids.len() as int].1,
                gs,
                from + 1,
            )
        }
    }
}

/// The index of the first child keyed `fb`, or the length when none is.
fn find_child(children: &Vec<(Feedback, Node)>, fb: &Feedback) -> (r: usize)
    ensures
        r <= children@.len(),
        r < children@.len() ==> children@[r as int].0@ == fb@,
        forall|m: int| 0 <= m < r ==> (#[trigger] children@[m]).0@ != fb@,
{
    let mut k: usize = 0;
    while k < children.len()
        invariant
            0 <= k <= children@.len(),
            forall|m: int| 0 <= m < k ==> (#[trigger] children@[m]).0@ != fb@,
        decreases children@.len() - k,
    {
        if children[k].0.same_as(fb) {
            return k;
        }
        k = k + 1;
    }
    k
}

impl Node {
    /// Splices one guess path into the tree, from entry `from` on: at
    /// each step the child keyed by the guess's feedback is descended
    /// into, created first (labelled with the guess's word) where
    /// absent.
    pub fn add_guesses(self, guesses: &Vec<Guess>, from: usize) -> (r: Node)
        requires
            self.wf(),
        ensures
            r.wf(),
            r.spec_word() == self.spec_word(),
            has_path(r, guesses@, from as int),
            spliced(self, r, guesses@, from as int),
            from as int >= guesses@.len() ==> r == self,
            forall|gs0: Seq<Guess>, k0: int|
                #[trigger] has_path(self, gs0, k0) ==> has_path(r, gs0, k0),
        decreases guesses@.len() - from,
    {
        if from >= guesses.len() {
            proof {
                assert(spliced(self, self, guesses@, from as int));
            }
            return self;
        }
        let g = &guesses[from];
        let ghost me = self;
        let Node { word, next } = self;
        let mut children: Vec<(Feedback, Node)> = match next {
            Some(v) => v,
            None => Vec::new(),
        };
        proof {
            assert(keys_distinct(children@) && forall|i: int|
                0 <= i < children@.len() ==> (#[trigger] children@[i]).1.wf());
        }
        let k = find_child(&children, g.feedback());
        if k < children.len() {
            let ghost kids0 = children@;
            let (fb, child) = children.remove(k);
            let child2 = child.add_guesses(guesses, from + 1);
            children.insert(k, (fb, child2));
            proof {
                assert(children@ =~= kids0.update(k as int, (fb, child2)));
            }
            let node = Node { word, next: Some(children) };
            proof {
                assert forall|a: int, b: int| 0 <= a < b < children@.len() implies (
                #[trigger] children@[a]).0@ != (#[trigger] children@[b]).0@ by {
                    assert(children@[a].0 == kids0[a].0);
                    assert(children@[b].0 == kids0[b].0);
                }
                assert(node.wf());
                lemma_lookup_prefix(children@, g.spec_feedback()@, k as int);
                assert(children@[k as int].0@ == g.spec_feedback()@);
                assert(node.spec_next(g.spec_feedback()@) == Some(child2));
                assert(has_path(node, guesses@, from as int));
                assert(spliced(me, node, guesses@, from as int)) by {
                    let f = guesses@[from as int].spec_feedback();
                    let kids = children_of(me);
                    assert(kids =~= kids0);
                    lemma_find_key_prefix(kids0, f@, k as int);
                    assert(kids0[k as int].0@ == f@);
                    let kk = find_key_from(kids, f@, 0);
                    assert(kk == k as int);
                    assert(node.spec_children()[kk].1 == child2);
                    assert(spliced(kids[kk].1, node.spec_children()[kk].1, guesses@, from as int
                        + 1));
                    assert(node.spec_children() =~= kids.update(
                        kk,
                        (kids[kk].0, node.spec_children()[kk].1),
                    ));
                    assert(node.spec_word() == me.spec_word());
                    assert(!node.is_leaf());
                }
                assert forall|gs0: Seq<Guess>, k0: int| #[trigger] has_path(me, gs0, k0)
                implies has_path(node, gs0, k0) by {
                    if 0 <= k0 < gs0.len() {
                        let f0 = gs0[k0].spec_feedback()@;
                        assert(lookup_from(kids0, f0, 0) is Some) by {
                            assert(me.spec_next(f0) is Some);
                        }
                        lemma_lookup_some_index(kids0, f0);
                        let t2 = choose|t2: int|
                            0 <= t2 < kids0.len() && (#[trigger] kids0[t2]).0@ == f0 && lookup_from(
                                kids0,
                                f0,
                                0,
                            ) == Some(kids0[t2].1);
                        if t2 == k {
                            assert(f0 == g.spec_feedback()@);
                            assert(node.spec_next(f0) == Some(child2));
                            assert(kids0[k as int].1 == child);
                            assert(has_path(child, gs0, k0 + 1));
                            assert(has_path(child2, gs0, k0 + 1));
                        } else {
                            lemma_lookup_unique(kids0, f0, t2);
                            lemma_lookup_unique(children@, f0, t2);
                            assert(children@[t2] == kids0[t2]);
                            assert(node.spec_next(f0) == Some(kids0[t2].1));
                            assert(has_path(kids0[t2].1, gs0, k0 + 1));
                        }
                    }
                }
            }
            node
        } else {
            let ghost kids0 = children@;
            let fresh = Node::new(g.word());
            let sub = fresh.add_guesses(guesses, from + 1);
            children.push((*g.feedback(), sub));
            let node = Node { word, next: Some(children) };
            proof {
                assert forall|a: int, b: int| 0 <= a < b < children@.len() implies (
                #[trigger] children@[a]).0@ != (#[trigger] children@[b]).0@ by {
                    if b < kids0.len() {
                        assert(children@[a] == kids0[a] && children@[b] == kids0[b]);
                    } else {
                        assert(children@[a] == kids0[a]);
                        assert(children@[b].0@ == g.spec_feedback()@);
                    }
                }
                assert(node.wf());
                assert(forall|m: int|
                    0 <= m < kids0.len() ==> (#[trigger] children@[m]).0@ != g.spec_feedback()@);
                lemma_lookup_prefix(children@, g.spec_feedback()@, kids0.len() as int);
                assert(children@[kids0.len() as int].0@ == g.spec_feedback()@);
                assert(node.spec_next(g.spec_feedback()@) == Some(sub));
                assert(has_path(node, guesses@, from as int));
                assert(spliced(me, node, guesses@, from as int)) by {
                    let f = guesses@[from as int].spec_feedback();
                    let kids = children_of(me);
                    assert(kids =~= kids0);
                    lemma_find_key_prefix(kids0, f@, kids0.len() as int);
                    let kk = find_key_from(kids, f@, 0);
                    assert(kk == kids.len() as int);
                    assert(fresh == fresh_leaf(guesses@[from as int].spec_word()));
                    assert(node.spec_children()[kids.len() as int].1 == sub);
                    assert(spliced(
                        fresh_leaf(guesses@[from as int].spec_word()),
                        node.spec_children()[kids.len() as int].1,
                        guesses@,
                        from as int + 1,
                    ));
                    assert(node.spec_children() =~= kids.push((
                        f,
                        node.spec_children()[kids.len() as int].1,
                    )));
                    assert(node.spec_word() == me.spec_word());
                    assert(!node.is_leaf());
                }
                assert forall|gs0: Seq<Guess>, k0: int| #[trigger] has_path(me, gs0, k0)
                implies has_path(node, gs0, k0) by {
                    if 0 <= k0 < gs0.len() {
                        let f0 = gs0[k0].spec_feedback()@;
                        assert(lookup_from(kids0, f0, 0) is Some) by {
                            assert(me.spec_next(f0) is Some);
                        }
                        lemma_lookup_some_index(kids0, f0);
                        let t2 = choose|t2: int|
                            0 <= t2 < kids0.len() && (#[trigger] kids0[t2]).0@ == f0 && lookup_from(
                                kids0,
                                f0,
                                0,
                            ) == Some(kids0[t2].1);
                        lemma_lookup_unique(kids0, f0, t2);
                        lemma_lookup_unique(children@, f0, t2);
                        assert(children@[t2] == kids0[t2]);
                        assert(node.spec_next(f0) == Some(kids0[t2].1));
                        assert(has_path(kids0[t2].1, gs0, k0 + 1));
                    }
                }
            }
            node
        }
    }
}

/// How many fixed-width records a strategy line holds.
pub open spec fn rec_count(s: Seq<char>) -> int {
    (s.len() + 1) as int / 13
}

/// The feedback code of record `k` of a strategy line.
pub open spec fn rec_fb(s: Seq<char>, k: int) -> Seq<char> {
    s.subrange(13 * k, 13 * k + 5)
}

/// The word text of record `k` of a strategy line.
pub open spec fn rec_wd(s: Seq<char>, k: int) -> Seq<char> {
    s.subrange(13 * k + 7, 13 * k + 12)
}

/// Whether record `k` of a strategy line parses.
pub open spec fn rec_ok(s: Seq<char>, k: int) -> bool {
    all_codes(rec_fb(s, k)) && all_lower(rec_wd(s, k))
}

/// The error record `k` fails with, when it does.
pub open spec fn rec_err(s: Seq<char>, k: int) -> ParseError {
    if !all_codes(rec_fb(s, k)) {
        ParseError::InvalidDirectiveCode
    } else {
        ParseError::InvalidSymbol
    }
}

/// Whether `gs` is exactly the guess sequence encoded by the records
/// of a strategy line tail `s`.
pub open spec fn line_guesses_match(gs: Seq<Guess>, s: Seq<char>) -> bool {
    &&& gs.len() == rec_count(s)
    &&& forall|k: int|
        0 <= k < gs.len() ==> (#[trigger] gs[k]).spec_feedback()@ == Seq::new(
            WORD_SIZE as nat,
            |i: int| dir_of_code(rec_fb(s, k)[i])->Some_0,
        ) && gs[k].spec_word()@ == word_of_str(rec_wd(s, k))
}

/// The records section of a full strategy line: what stands between the
/// leading word and the trailing columns.
pub open spec fn line_tail(s: Seq<char>) -> Seq<char> {
    s.subrange(6, s.len() - 7)
}

/// Parses the records of one (reconstructed) strategy line tail: each
/// record is a five-character feedback code, two separators, a
/// five-letter word and one separator.
pub fn parse_guesses(s: &str) -> (r: Result<Vec<Guess>, ParseError>)
    requires
        s@.len() < usize::MAX,
    ensures
        r is Ok <==> (forall|k: int| 0 <= k < rec_count(s@) ==> rec_ok(s@, k)),
        r matches Ok(gs) ==> line_guesses_match(gs@, s@),
        r matches Err(e) ==> exists|k: int|
            0 <= k < rec_count(s@) && !(#[trigger] rec_ok(s@, k)) && (forall|m: int|
                0 <= m < k ==> rec_ok(s@, m)) && e == rec_err(s@, k),
{
    let len = s.unicode_len();
    let n = (len + 1) / 13;
    let mut out: Vec<Guess> = Vec::new();
    let mut k: usize = 0;
    while k < n
        invariant
            s@.len() < usize::MAX,
            len == s@.len(),
            n == rec_count(s@),
            0 <= k <= n,
            out@.len() == k,
            forall|m: int| 0 <= m < k ==> rec_ok(s@, m),
            forall|m: int|
                0 <= m < k ==> (#[trigger] out@[m]).spec_feedback()@ == Seq::new(
                    WORD_SIZE as nat,
                    |i: int| dir_of_code(rec_fb(s@, m)[i])->Some_0,
                ) && out@[m].spec_word()@ == word_of_str(rec_wd(s@, m)),
        decreases n - k,
    {
        let base = 13 * k;
        let fb_text = s.substring_char(base, base + 5);
        let fb = match Feedback::from_str(fb_text) {
            Ok(f) => f,
            Err(e) => {
                proof {
                    assert(fb_text@ == rec_fb(s@, k as int));
                    assert(!rec_ok(s@, k as int));
                }
                return Err(e);
            },
        };
        let wd_text = s.substring_char(base + 7, base + 12);
        let wd = match Word::from_str(wd_text) {
            Ok(w) => w,
            Err(e) => {
                proof {
                    assert(wd_text@ == rec_wd(s@, k as int));
                    assert(!rec_ok(s@, k as int));
                }
                return Err(e);
            },
        };
        out.push(Guess::from_feedback_and_word(fb, wd));
        proof {
            assert(fb_text@ == rec_fb(s@, k as int));
            assert(wd_text@ == rec_wd(s@, k as int));
        }
        k = k + 1;
    }
    Ok(out)
}

/// True of the ASCII whitespace characters.
pub open spec fn is_ascii_ws(c: char) -> bool {
    c == ' ' || c == '\t' || c == '\n' || c == '\r' || c == '\u{000C}'
}

/// The first non-whitespace column of `s` at or after `i`; the length
/// when the rest is all whitespace.
pub open spec fn first_non_ws_from(s: Seq<char>, i: int) -> int
    decreases s.len() - i,
{
    if i < 0 || i >= s.len() {
        s.len() as int
    } else if !is_ascii_ws(s[i]) {
        i
    } else {
        first_non_ws_from(s, i + 1)
    }
}

/// The column where a continuation line splices onto the previous one:
/// its first non-whitespace column, or the previous line's end when the
/// continuation is all whitespace.
pub open spec fn splice_point(prev: Seq<char>, curr: Seq<char>) -> int {
    if first_non_ws_from(curr, 0) < curr.len() {
        first_non_ws_from(curr, 0)
    } else {
        prev.len() as int
    }
}

/// The first non-whitespace column of a line, or its length.
pub fn first_non_ws(s: &str) -> (r: usize)
    ensures
        r as int == first_non_ws_from(s@, 0),
{
    let len = s.unicode_len();
    let mut i: usize = 0;
    while i < len
        invariant
            len == s@.len(),
            0 <= i <= len,
            first_non_ws_from(s@, 0) == first_non_ws_from(s@, i as int),
        decreases len - i,
    {
        let c = s.get_char(i);
        if !(c == ' ' || c == '\t' || c == '\n' || c == '\r' || c == '\u{000C}') {
            return i;
        }
        i = i + 1;
    }
    len
}

/// Reconstructs a prefix-compressed continuation line: the previous
/// line up to the splice column, then the continuation from there on.
pub fn combine_line(prev: &str, curr: &str) -> (r: String)
    requires
        splice_point(prev@, curr@) <= prev@.len(),
        splice_point(prev@, curr@) <= curr@.len(),
    ensures
        r@ == prev@.subrange(0, splice_point(prev@, curr@)) + curr@.subrange(
            splice_point(prev@, curr@),
            curr@.len() as int,
        ),
{
    let n = first_non_ws(curr);
    let clen = curr.unicode_len();
    let sp = if n < clen {
        n
    } else {
        prev.unicode_len()
    };
    let head = prev.substring_char(0, sp);
    let tail = curr.substring_char(sp, clen);
    String::from_str(head).concat(tail)
}

/// Whether the leading word and every record of a complete first
/// strategy line parse.
pub open spec fn first_line_ok(s: Seq<char>) -> bool {
    &&& s.len() >= 13
    &&& all_lower(s.subrange(0, 5))
    &&& forall|k: int| 0 <= k < rec_count(line_tail(s)) ==> rec_ok(line_tail(s), k)
}

/// The reconstruction of a prefix-compressed continuation line: the
/// previous reconstructed line up to the splice column, then the
/// continuation from there on.
pub open spec fn respliced(prev: Seq<char>, curr: Seq<char>) -> Seq<char> {
    prev.subrange(0, splice_point(prev, curr)) + curr.subrange(
        splice_point(prev, curr),
        curr.len() as int,
    )
}

/// Whether a continuation line reconstructs against `prev` (the splice
/// column lies within both lines) and every record of the
/// reconstruction parses.
pub open spec fn cont_line_ok(prev: Seq<char>, curr: Seq<char>) -> bool {
    &&& splice_point(prev, curr) <= prev.len()
    &&& splice_point(prev, curr) <= curr.len()
    &&& respliced(prev, curr).len() >= 13
    &&& forall|k: int|
        0 <= k < rec_count(line_tail(respliced(prev, curr))) ==> rec_ok(
            line_tail(respliced(prev, curr)),
            k,
        )
}

/// The fully reconstructed text of line `i` of a strategy dump.
pub open spec fn rec_line(lines: Seq<String>, i: int) -> Seq<char>
    decreases i,
{
    if i <= 0 {
        lines[0]@
    } else {
        respliced(rec_line(lines, i - 1), lines[i]@)
    }
}

/// Whether the dump parses through line `i`: the first line is
/// complete, and each continuation reconstructs against the previous
/// reconstruction.
pub open spec fn strat_ok_upto(lines: Seq<String>, i: int) -> bool
    decreases i,
{
    if i <= 0 {
        first_line_ok(lines[0]@)
    } else {
        strat_ok_upto(lines, i - 1) && cont_line_ok(rec_line(lines, i - 1), lines[i]@)
    }
}

proof fn lemma_strat_ok_prefix(lines: Seq<String>, i: int, j: int)
    requires
        0 <= i <= j,
        strat_ok_upto(lines, j),
    ensures
        strat_ok_upto(lines, i),
    decreases j,
{
    if i < j {
        lemma_strat_ok_prefix(lines, i, j - 1);
    }
}

/// Whether `n` is exactly the tree the import builds from lines
/// `0..=i` of a strategy dump: a fresh root leaf labelled with the
/// first line's leading word, with each reconstructed line's guess
/// path spliced in, in order.
pub open spec fn imported_upto(lines: Seq<String>, i: int, n: Node) -> bool
    decreases i,
{
    if i <= 0 {
        exists|w: Word, gs: Seq<Guess>|
            {
                &&& w@ == word_of_str(rec_line(lines, 0).subrange(0, 5))
                &&& #[trigger] line_guesses_match(gs, line_tail(rec_line(lines, 0)))
                &&& #[trigger] spliced(fresh_leaf(w), n, gs, 0)
            }
    } else {
        exists|m: Node, gs: Seq<Guess>|
            {
                &&& imported_upto(lines, i - 1, m)
                &&& line_guesses_match(gs, line_tail(rec_line(lines, i)))
                &&& #[trigger] spliced(m, n, gs, 0)
            }
    }
}

proof fn lemma_imported_step(lines: Seq<String>, i: int, m: Node, n: Node, gs: Seq<Guess>)
    requires
        i >= 1,
        imported_upto(lines, i - 1, m),
        line_guesses_match(gs, line_tail(rec_line(lines, i))),
        spliced(m, n, gs, 0),
    ensures
        imported_upto(lines, i, n),
{
    reveal_with_fuel(imported_upto, 2);
}

/// Structural tree equality: same word, same feedback keys in the same
/// order, and structurally equal subtrees.
pub open spec fn same_tree(x: Node, y: Node) -> bool
    decreases x,
{
    &&& x.spec_word() == y.spec_word()
    &&& x.is_leaf() == y.is_leaf()
    &&& !x.is_leaf() ==> {
        &&& x.spec_children().len() == y.spec_children().len()
        &&& forall|t: int|
            0 <= t < x.spec_children().len() ==> (#[trigger] x.spec_children()[t]).0
                == y.spec_children()[t].0 && same_tree(
                x.spec_children()[t].1,
                y.spec_children()[t].1,
            )
    }
}

/// Every tree is structurally equal to itself.
pub proof fn lemma_same_tree_refl(x: Node)
    ensures
        same_tree(x, x),
    decreases x,
{
    if !x.is_leaf() {
        assert forall|t: int| 0 <= t < x.spec_children().len() implies (
        #[trigger] x.spec_children()[t]).0 == x.spec_children()[t].0 && same_tree(
            x.spec_children()[t].1,
            x.spec_children()[t].1,
        ) by {
            lemma_same_tree_refl(x.spec_children()[t].1);
        }
    }
}

proof fn lemma_find_key_bounds(children: Seq<(Feedback, Node)>, f: Seq<Directive>, i: int)
    requires
        0 <= i <= children.len(),
    ensures
        i <= find_key_from(children, f, i) <= children.len(),
        find_key_from(children, f, i) < children.len() ==> children[find_key_from(
            children,
            f,
            i,
        )].0@ == f,
        forall|m: int|
            i <= m < find_key_from(children, f, i) ==> (#[trigger] children[m]).0@ != f,
    decreases children.len() - i,
{
    if i < children.len() && children[i].0@ != f {
        lemma_find_key_bounds(children, f, i + 1);
    }
}

proof fn lemma_find_key_eq(
    s1: Seq<(Feedback, Node)>,
    s2: Seq<(Feedback, Node)>,
    f: Seq<Directive>,
    i: int,
)
    requires
        s1.len() == s2.len(),
        forall|m: int| 0 <= m < s1.len() ==> (#[trigger] s1[m]).0@ == s2[m].0@,
        0 <= i,
    ensures
        find_key_from(s1, f, i) == find_key_from(s2, f, i),
    decreases s1.len() - i,
{
    if i < s1.len() {
        lemma_find_key_eq(s1, s2, f, i + 1);
    }
}

/// Splicing a guess path a second time changes nothing: the tree that
/// results from two successive splices of the same path is structurally
/// equal to the tree after one.
pub proof fn lemma_spliced_idempotent(a: Node, b: Node, c: Node, gs: Seq<Guess>, from: int)
    requires
        spliced(a, b, gs, from),
        spliced(b, c, gs, from),
    ensures
        same_tree(c, b),
    decreases gs.len() - from,
{
    if from < 0 || from >= gs.len() {
        assert(c == b);
        lemma_same_tree_refl(b);
    } else {
        let f = gs[from].spec_feedback();
        let kids_a = children_of(a);
        let ka = find_key_from(kids_a, f@, 0);
        lemma_find_key_bounds(kids_a, f@, 0);
        assert(!b.is_leaf());
        let kids_b = children_of(b);
        assert(kids_b == b.spec_children());
        assert(!c.is_leaf());
        let kids_c = children_of(c);
        assert(kids_c == c.spec_children());
        if ka < kids_a.len() {
            let b_child = b.spec_children()[ka].1;
            let ub = kids_a.update(ka, (kids_a[ka].0, b_child));
            assert(b.spec_children() =~= ub);
            vstd::seq::axiom_seq_update_len(kids_a, ka, (kids_a[ka].0, b_child));
            assert(ub.len() == kids_a.len());
            assert(kids_b.len() == kids_a.len());
            assert(spliced(kids_a[ka].1, b_child, gs, from + 1));
            assert forall|m: int| 0 <= m < kids_a.len() implies (#[trigger] kids_b[m]).0@
                == kids_a[m].0@ by {
                assert(kids_b[m] == ub[m]);
                if m != ka {
                    vstd::seq::axiom_seq_update_different(kids_a, m, ka, (kids_a[ka].0, b_child));
                    assert(ub[m] == kids_a[m]);
                } else {
                    vstd::seq::axiom_seq_update_same(kids_a, ka, (kids_a[ka].0, b_child));
                    assert(ub[ka] == (kids_a[ka].0, b_child));
                }
            }
            lemma_find_key_eq(kids_a, kids_b, f@, 0);
            let kb = find_key_from(kids_b, f@, 0);
            lemma_find_key_bounds(kids_b, f@, 0);
            assert(kb == ka);
            let c_child = c.spec_children()[kb].1;
            let uc = kids_b.update(kb, (kids_b[kb].0, c_child));
            assert(c.spec_children() =~= uc);
            vstd::seq::axiom_seq_update_len(kids_b, kb, (kids_b[kb].0, c_child));
            assert(uc.len() == kids_b.len());
            assert(spliced(kids_b[kb].1, c_child, gs, from + 1));
            assert(kids_b[kb].1 == b_child) by {
                assert(kids_b[kb] == ub[kb]);
                vstd::seq::axiom_seq_update_same(kids_a, ka, (kids_a[ka].0, b_child));
                assert(ub[ka] == (kids_a[ka].0, b_child));
            }
            lemma_spliced_idempotent(kids_a[ka].1, b_child, c_child, gs, from + 1);
            assert forall|t: int| 0 <= t < kids_c.len() implies (#[trigger] kids_c[t]).0
                == kids_b[t].0 && same_tree(kids_c[t].1, kids_b[t].1) by {
                assert(kids_c[t] == uc[t]);
                if t != kb {
                    vstd::seq::axiom_seq_update_different(kids_b, t, kb, (kids_b[kb].0, c_child));
                    assert(uc[t] == kids_b[t]);
                    lemma_same_tree_refl(kids_b[t].1);
                } else {
                    vstd::seq::axiom_seq_update_same(kids_b, kb, (kids_b[kb].0, c_child));
                    assert(uc[kb] == (kids_b[kb].0, c_child));
                }
            }
            assert(same_tree(c, b));
        } else {
            let b_child = b.spec_children()[kids_a.len() as int].1;
            let pb = kids_a.push((f, b_child));
            assert(b.spec_children() =~= pb);
            vstd::seq::axiom_seq_push_len(kids_a, (f, b_child));
            assert(kids_b.len() == kids_a.len() + 1);
            assert(spliced(fresh_leaf(gs[from].spec_word()), b_child, gs, from + 1));
            assert forall|m: int| 0 <= m < kids_a.len() implies (#[trigger] kids_b[m]).0@
                != f@ by {
                assert(kids_b[m] == pb[m]);
                vstd::seq::axiom_seq_push_index_different(kids_a, (f, b_child), m);
                assert(pb[m] == kids_a[m]);
            }
            lemma_find_key_prefix(kids_b, f@, kids_a.len() as int);
            vstd::seq::axiom_seq_push_index_same(kids_a, (f, b_child), kids_a.len() as int);
            assert(kids_b[kids_a.len() as int] == pb[kids_a.len() as int]);
            assert(kids_b[kids_a.len() as int].0@ == f@);
            let kb = find_key_from(kids_b, f@, 0);
            assert(kb == kids_a.len() as int);
            let c_child = c.spec_children()[kb].1;
            let uc = kids_b.update(kb, (kids_b[kb].0, c_child));
            assert(c.spec_children() =~= uc);
            vstd::seq::axiom_seq_update_len(kids_b, kb, (kids_b[kb].0, c_child));
            assert(uc.len() == kids_b.len());
            assert(spliced(kids_b[kb].1, c_child, gs, from + 1));
            assert(kids_b[kb].1 == b_child) by {
                assert(kids_b[kb] == pb[kb]);
                vstd::seq::axiom_seq_push_index_same(kids_a, (f, b_child), kb);
            }
            lemma_spliced_idempotent(
                fresh_leaf(gs[from].spec_word()),
                b_child,
                c_child,
                gs,
                from + 1,
            );
            assert forall|t: int| 0 <= t < kids_c.len() implies (#[trigger] kids_c[t]).0
                == kids_b[t].0 && same_tree(kids_c[t].1, kids_b[t].1) by {
                assert(kids_c[t] == uc[t]);
                if t != kb {
                    assert(uc[t] == kids_b[t]);
                    lemma_same_tree_refl(kids_b[t].1);
                } else {
                    assert(uc[kb] == (kids_b[kb].0, c_child));
                }
            }
            assert(same_tree(c, b));
        }
    }
}


/// Whether tree `n` replays the guess path of (reconstructed) line `i`
/// of a strategy dump.
pub open spec fn line_replayable(n: Node, lines: Seq<String>, i: int) -> bool {
    exists|gs: Seq<Guess>|
        #[trigger] line_guesses_match(gs, line_tail(rec_line(lines, i))) && has_path(n, gs, 0)
}

/// Imports a fixed-width strategy dump, one reconstructed line at a
/// time: the first five columns name the root guess, and each line's
/// records, keyed by feedback, are spliced into the tree as a path.
/// Continuation lines are first completed from the previous
/// reconstructed line up to their first non-whitespace column. The
/// import succeeds exactly when every line parses; the tree then
/// replays every line's guess path.
pub fn from_strategy(lines: &Vec<String>) -> (r: Result<Node, ParseError>)
    ensures
        r is Ok <==> lines@.len() > 0 && strat_ok_upto(lines@, lines@.len() - 1),
        r matches Ok(n) ==> n.wf() && n.spec_word()@ == word_of_str(lines@[0]@.subrange(0, 5)),
        r matches Ok(n) ==> forall|i: int|
            0 <= i < lines@.len() ==> #[trigger] line_replayable(n, lines@, i),
        r matches Ok(n) ==> imported_upto(lines@, lines@.len() - 1, n),
{
    if lines.len() == 0 {
        return Err(ParseError::InvalidStrategyLine);
    }
    let ghost last = lines@.len() - 1;
    let first = &lines[0];
    let flen = first.as_str().unicode_len();
    if flen < 13 {
        proof {
            if strat_ok_upto(lines@, last) {
                lemma_strat_ok_prefix(lines@, 0, last);
            }
        }
        return Err(ParseError::InvalidStrategyLine);
    }
    let word = match Word::from_str(first.as_str().substring_char(0, 5)) {
        Ok(w) => w,
        Err(e) => {
            proof {
                if strat_ok_upto(lines@, last) {
                    lemma_strat_ok_prefix(lines@, 0, last);
                }
            }
            return Err(e);
        },
    };
    let tail0 = first.as_str().substring_char(6, flen - 7);
    proof {
        assert(tail0@ =~= line_tail(lines@[0]@));
    }
    let gs = match parse_guesses(tail0) {
        Ok(gs) => gs,
        Err(e) => {
            proof {
                if strat_ok_upto(lines@, last) {
                    lemma_strat_ok_prefix(lines@, 0, last);
                }
            }
            return Err(e);
        },
    };
    let leaf = Node::new(&word);
    let root = leaf.add_guesses(&gs, 0);
    proof {
        assert(rec_line(lines@, 0) == lines@[0]@);
        assert(line_guesses_match(gs@, line_tail(rec_line(lines@, 0))));
        assert(strat_ok_upto(lines@, 0));
        assert(leaf == fresh_leaf(word));
        assert(spliced(fresh_leaf(word), root, gs@, 0));
        assert(word@ == word_of_str(rec_line(lines@, 0).subrange(0, 5)));
        assert(imported_upto(lines@, 0, root));
    }
    let mut root = root;
    let mut prev = first.clone();
    let mut li: usize = 1;
    while li < lines.len()
        invariant
            root.wf(),
            lines@.len() > 0,
            last == lines@.len() - 1,
            root.spec_word()@ == word_of_str(lines@[0]@.subrange(0, 5)),
            1 <= li <= lines@.len(),
            prev@ == rec_line(lines@, li - 1),
            strat_ok_upto(lines@, li - 1),
            imported_upto(lines@, li - 1, root),
            forall|i: int| 0 <= i < li ==> #[trigger] line_replayable(root, lines@, i),
        decreases lines@.len() - li,
    {
        let line = &lines[li];
        let n = first_non_ws(line.as_str());
        let plen = prev.as_str().unicode_len();
        let llen = line.as_str().unicode_len();
        let sp = if n < llen {
            n
        } else {
            plen
        };
        proof {
            assert(sp as int == splice_point(prev@, line@));
        }
        if sp > plen || sp > llen {
            proof {
                assert(!cont_line_ok(rec_line(lines@, li - 1), lines@[li as int]@));
                if strat_ok_upto(lines@, last) {
                    lemma_strat_ok_prefix(lines@, li as int, last);
                }
            }
            return Err(ParseError::InvalidStrategyLine);
        }
        let combined = combine_line(prev.as_str(), line.as_str());
        proof {
            assert(combined@ == respliced(rec_line(lines@, li - 1), lines@[li as int]@));
            assert(combined@ == rec_line(lines@, li as int));
        }
        let clen = combined.as_str().unicode_len();
        if clen < 13 {
            proof {
                assert(!cont_line_ok(rec_line(lines@, li - 1), lines@[li as int]@));
                if strat_ok_upto(lines@, last) {
                    lemma_strat_ok_prefix(lines@, li as int, last);
                }
            }
            return Err(ParseError::InvalidStrategyLine);
        }
        let tail = combined.as_str().substring_char(6, clen - 7);
        proof {
            assert(tail@ =~= line_tail(rec_line(lines@, li as int)));
        }
        let gs = match parse_guesses(tail) {
            Ok(gs) => gs,
            Err(e) => {
                proof {
                    assert(!cont_line_ok(rec_line(lines@, li - 1), lines@[li as int]@));
                    if strat_ok_upto(lines@, last) {
                        lemma_strat_ok_prefix(lines@, li as int, last);
                    }
                }
                return Err(e);
            },
        };
        let ghost root0 = root;
        root = root.add_guesses(&gs, 0);
        proof {
            assert(line_guesses_match(gs@, line_tail(rec_line(lines@, li as int))));
            assert(spliced(root0, root, gs@, 0));
            lemma_imported_step(lines@, li as int, root0, root, gs@);
            assert forall|i: int| 0 <= i < li + 1 implies #[trigger] line_replayable(
                root,
                lines@,
                i,
            ) by {
                if i < li {
                    assert(line_replayable(root0, lines@, i));
                    let gs2 = choose|gs2: Seq<Guess>|
                        #[trigger] line_guesses_match(gs2, line_tail(rec_line(lines@, i)))
                            && has_path(root0, gs2, 0);
                    assert(has_path(root, gs2, 0));
                } else {
                    assert(has_path(root, gs@, 0));
                }
            }
        }
        prev = combined;
        li = li + 1;
    }
    Ok(root)
}

/// Whether `list` holds a word spelling the same letters as `w`.
fn contains_word(list: &Vec<Word>, w: &Word) -> (r: bool)
    ensures
        r == pool_has(list@, w@),
{
    let mut i: usize = 0;
    while i < list.len()
        invariant
            0 <= i <= list.len(),
            forall|k: int| 0 <= k < i ==> (#[trigger] list@[k])@ != w@,
        decreases list.len() - i,
    {
        if list[i].same_as(w) {
            return true;
        }
        i = i + 1;
    }
    false
}

/// Whether any word of `group` lies in `solutions`.
fn group_has_solution(group: &Vec<Word>, solutions: &Vec<Word>) -> (r: bool)
    ensures
        r == any_solution(group@, solutions@),
{
    let mut i: usize = 0;
    while i < group.len()
        invariant
            0 <= i <= group.len(),
            forall|k: int| 0 <= k < i ==> !pool_has(solutions@, (#[trigger] group@[k])@),
        decreases group.len() - i,
    {
        if contains_word(solutions, &group[i]) {
            return true;
        }
        i = i + 1;
    }
    false
}

} // verus!
