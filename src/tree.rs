//! The decision tree that a search produces.
use vstd::prelude::*;
use crate::score::{all_exact, score_spec, Colors, Word};
use crate::partition::{answer_code, code_of, group_of};

verus! {

/// A node of a strategy: the word to guess, statistics over the answers
/// that reach it, and one subtree per feedback pattern seen, in order of
/// pattern code. A node without children is a leaf.
pub struct Tree {
    pub guess: Word,
    pub total_guesses: usize,
    pub max_guesses: usize,
    pub children: Vec<(Colors, Tree)>,
}

/// Sum of the children's totals, leaving out the child of the all-exact
/// pattern: there the guess was the answer and costs nothing more.
pub open spec fn sum_totals(ch: Seq<(Colors, Tree)>) -> nat
    decreases ch.len(),
{
    if ch.len() == 0 {
        0
    } else {
        sum_totals(ch.drop_last()) + if ch.last().0@ == all_exact() {
            0nat
        } else {
            ch.last().1.total_guesses as nat
        }
    }
}

/// Largest `max_guesses` among the children (zero for none).
pub open spec fn max_of(ch: Seq<(Colors, Tree)>) -> nat
    decreases ch.len(),
{
    if ch.len() == 0 {
        0
    } else {
        let m = max_of(ch.drop_last());
        let x = ch.last().1.max_guesses as nat;
        if m < x {
            x
        } else {
            m
        }
    }
}

/// `t` is a strategy for the answers of `pool` in which no answer needs more
/// than `levels` guesses: a leaf guesses the one answer left; an internal
/// node has one child per pattern that its guess gets on the pool, in
/// increasing code order, each a strategy for the answers of that pattern
/// with one level less, and its statistics follow from the children's.
pub open spec fn tree_valid(t: Tree, pool: Seq<Word>, levels: nat) -> bool
    decreases levels,
{
    let ch = t.children@;
    1 <= t.max_guesses <= levels && 1 <= pool.len() && t.total_guesses <= levels * pool.len() && if ch.len() == 0 {
        pool.len() == 1 && t.guess == pool[0] && t.total_guesses == 1 && t.max_guesses == 1
    } else if levels <= 1 {
        false
    } else {
        &&& t.total_guesses == pool.len() + sum_totals(ch)
        &&& t.max_guesses == 1 + max_of(ch)
        &&& forall|i: int, j: int|
            0 <= i < j < ch.len() ==> code_of(#[trigger] ch[i].0@) < code_of(#[trigger] ch[j].0@)
        &&& forall|i: int|
            0 <= i < ch.len() ==> {
                let grp = group_of(pool, t.guess@, code_of((#[trigger] ch[i]).0@));
                &&& grp.len() > 0
                &&& ch[i].0@ == score_spec(t.guess@, grp[0]@)
                &&& tree_valid(ch[i].1, grp, (levels - 1) as nat)
            }
        &&& forall|a: int|
            0 <= a < pool.len() ==> exists|i: int|
                0 <= i < ch.len() && code_of(ch[i].0@) == answer_code(t.guess@, #[trigger] pool[a])
    }
}

/// Ends the line of a leaf.
pub const NEWLINE: u8 = 0x0a;

/// Separates the guesses on a line.
pub const COMMA: u8 = 0x2c;

/// The lines written for the children of `t` from the `i`-th on, or for `t`
/// itself when it is a leaf: one line per leaf, holding `prefix`, then the
/// guesses on the path down to the leaf, each followed by a comma but the
/// leaf's, which is followed by a newline. Children come in their order.
pub open spec fn lines(t: Tree, prefix: Seq<u8>, i: int) -> Seq<u8>
    decreases t, t.children@.len() - i,
{
    if t.children@.len() == 0 {
        prefix + t.guess@ + seq![NEWLINE]
    } else if i < 0 || i >= t.children@.len() {
        Seq::empty()
    } else {
        lines(t.children@[i].1, prefix + t.guess@ + seq![COMMA], 0) + lines(t, prefix, i + 1)
    }
}

impl Tree {
    /// A node that guesses `guess` and needs nothing more: one guess in all.
    pub fn leaf(guess: Word) -> (r: Tree)
        ensures
            r.guess == guess,
            r.total_guesses == 1,
            r.max_guesses == 1,
            r.children@.len() == 0,
    {
        Tree { guess, total_guesses: 1, max_guesses: 1, children: Vec::new() }
    }

    /// Appends to `out` one line per leaf: the guesses from this node down
    /// to the leaf, after `line`.
    pub fn write(&self, out: &mut Vec<u8>, line: Vec<u8>)
        ensures
            final(out)@ == old(out)@ + lines(*self, line@, 0),
        decreases self,
    {
        let mut line = line;
        let ghost start = line@;
        let mut k: usize = 0;
        while k < 5
            invariant
                k <= 5,
                line@ == start + self.guess@.take(k as int),
            decreases 5 - k,
        {
            line.push(self.guess[k]);
            proof {
                assert(self.guess@.take(k as int + 1) =~= self.guess@.take(k as int).push(self.guess@[k as int]));
            }
            k = k + 1;
        }
        assert(self.guess@.take(5) =~= self.guess@);
        if self.children.len() == 0 {
            line.push(NEWLINE);
            out.append(&mut line);
        } else {
            line.push(COMMA);
            let ghost out0 = out@;
            let mut j: usize = 0;
            while j < self.children.len()
                invariant
                    j <= self.children@.len(),
                    self.children@.len() > 0,
                    line@ == start + self.guess@ + seq![COMMA],
                    out@ + lines(*self, start, j as int) == out0 + lines(*self, start, 0),
                decreases self.children@.len() - j,
            {
                let l2 = line.clone();
                assert(l2@ =~= line@);
                proof {
                    assert(decreases_to!(*self => self.children));
                    assert(decreases_to!(self.children => self.children@[j as int]));
                }
                self.children[j].1.write(out, l2);
                assert(lines(*self, start, j as int) == lines(self.children@[j as int].1, line@, 0) + lines(*self, start, j + 1));
                j = j + 1;
            }
            assert(lines(*self, start, j as int) =~= Seq::empty());
        }
    }
}

} // verus!
