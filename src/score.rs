//! Feedback of a guess against a hidden answer.
use vstd::prelude::*;

verus! {

/// A word: exactly five single-byte symbols.
pub type Word = [u8; 5];

/// Feedback for a guess: one of `EXACT`, `PRESENT` or `ABSENT` per position.
pub type Colors = [u8; 5];

/// The symbol sits at this position in the answer.
pub const EXACT: u8 = 0x67;

/// The symbol occurs elsewhere in the answer, not yet matched.
pub const PRESENT: u8 = 0x79;

/// No unmatched occurrence of the symbol is left in the answer.
pub const ABSENT: u8 = 0x62;

/// Number of positions `k < n` where `x` holds `c` and `x` and `y` differ,
/// i.e. occurrences of `c` in `x` that are not exact matches against `y`.
pub open spec fn unmatched(x: Seq<u8>, y: Seq<u8>, c: u8, n: int) -> nat
    decreases n,
{
    if n <= 0 {
        0
    } else {
        unmatched(x, y, c, n - 1) + if x[n - 1] == c && x[n - 1] != y[n - 1] {
            1nat
        } else {
            0nat
        }
    }
}

/// Feedback at position `i`: exact if the symbols agree; otherwise present
/// while earlier non-exact copies of the guessed symbol have not used up
/// the answer's non-exact copies of it; otherwise absent.
pub open spec fn color_spec(g: Seq<u8>, a: Seq<u8>, i: int) -> u8 {
    if g[i] == a[i] {
        EXACT
    } else if unmatched(g, a, g[i], i) < unmatched(a, g, g[i], 5) {
        PRESENT
    } else {
        ABSENT
    }
}

/// The feedback pattern of guess `g` against answer `a`.
pub open spec fn score_spec(g: Seq<u8>, a: Seq<u8>) -> Seq<u8> {
    Seq::new(5, |i: int| color_spec(g, a, i))
}

/// The pattern of a guess that is the answer.
pub open spec fn all_exact() -> Seq<u8> {
    seq![EXACT, EXACT, EXACT, EXACT, EXACT]
}

/// Number of positions `k < n` where `a` holds `c`.
pub open spec fn occurrences(a: Seq<u8>, c: u8, n: int) -> nat
    decreases n,
{
    if n <= 0 {
        0
    } else {
        occurrences(a, c, n - 1) + if a[n - 1] == c {
            1nat
        } else {
            0nat
        }
    }
}

/// Number of positions `i < n` where the guess `g` holds `c` and the
/// feedback `s` is exact or present there.
pub open spec fn hits(g: Seq<u8>, s: Seq<u8>, c: u8, n: int) -> nat
    decreases n,
{
    if n <= 0 {
        0
    } else {
        hits(g, s, c, n - 1) + if g[n - 1] == c && s[n - 1] != ABSENT {
            1nat
        } else {
            0nat
        }
    }
}

/// Number of positions `i < n` where both words hold `c`.
pub open spec fn exact_hits(g: Seq<u8>, a: Seq<u8>, c: u8, n: int) -> nat
    decreases n,
{
    if n <= 0 {
        0
    } else {
        exact_hits(g, a, c, n - 1) + if g[n - 1] == c && a[n - 1] == c {
            1nat
        } else {
            0nat
        }
    }
}

proof fn lemma_occurrences_split(g: Seq<u8>, a: Seq<u8>, c: u8, n: int)
    requires
        0 <= n <= 5,
        g.len() == 5,
        a.len() == 5,
    ensures
        occurrences(a, c, n) == exact_hits(g, a, c, n) + unmatched(a, g, c, n),
    decreases n,
{
    if n > 0 {
        lemma_occurrences_split(g, a, c, n - 1);
    }
}

proof fn lemma_hits_bound(g: Seq<u8>, a: Seq<u8>, c: u8, n: int)
    requires
        0 <= n <= 5,
        g.len() == 5,
        a.len() == 5,
    ensures
        hits(g, score_spec(g, a), c, n) <= exact_hits(g, a, c, n) + unmatched(g, a, c, n),
        hits(g, score_spec(g, a), c, n) <= exact_hits(g, a, c, n) + unmatched(a, g, c, 5),
    decreases n,
{
    if n > 0 {
        lemma_hits_bound(g, a, c, n - 1);
        assert(score_spec(g, a)[n - 1] == color_spec(g, a, n - 1));
    }
}

/// Every position of a pattern is exact, present or absent, and for every
/// symbol, the positions of the guess holding it that are marked exact or
/// present are no more than the answer's copies of it.
pub proof fn lemma_score_labels(guess: Word, answer: Word)
    ensures
        score_spec(guess@, answer@).len() == 5,
        forall|i: int|
            0 <= i < 5 ==> {
                let x = #[trigger] score_spec(guess@, answer@)[i];
                x == EXACT || x == PRESENT || x == ABSENT
            },
        forall|c: u8|
            #[trigger] hits(guess@, score_spec(guess@, answer@), c, 5) <= occurrences(
                answer@,
                c,
                5,
            ),
{
    assert forall|c: u8|
        #[trigger] hits(guess@, score_spec(guess@, answer@), c, 5) <= occurrences(
            answer@,
            c,
            5,
        ) by {
        lemma_hits_bound(guess@, answer@, c, 5);
        lemma_occurrences_split(guess@, answer@, c, 5);
    }
}

/// The word spelled by five bytes.
pub fn to_word(w: &[u8]) -> (r: Word)
    requires
        w@.len() == 5,
    ensures
        r@ == w@,
{
    let x: Word = [w[0], w[1], w[2], w[3], w[4]];
    assert(x@ =~= w@);
    x
}

fn count_unmatched(x: &Word, y: &Word, c: u8, n: usize) -> (r: usize)
    requires
        n <= 5,
    ensures
        r == unmatched(x@, y@, c, n as int),
{
    let mut r: usize = 0;
    let mut k: usize = 0;
    while k < n
        invariant
            k <= n <= 5,
            r == unmatched(x@, y@, c, k as int),
            r <= k,
        decreases n - k,
    {
        if x[k] == c && x[k] != y[k] {
            r = r + 1;
        }
        k = k + 1;
    }
    r
}

fn color_at(guess: &Word, answer: &Word, i: usize) -> (r: u8)
    requires
        i < 5,
    ensures
        r == color_spec(guess@, answer@, i as int),
{
    if guess[i] == answer[i] {
        EXACT
    } else if count_unmatched(guess, answer, guess[i], i) < count_unmatched(
        answer,
        guess,
        guess[i],
        5,
    ) {
        PRESENT
    } else {
        ABSENT
    }
}

/// Scores `guess` against `answer`. Exact matches are taken first over the
/// whole word; then, left to right, each other position is present while an
/// unmatched copy of its symbol remains in the answer, and absent after.
pub fn score(guess: Word, answer: Word) -> (r: Colors)
    ensures
        r@ == score_spec(guess@, answer@),
{
    let r = [
        color_at(&guess, &answer, 0),
        color_at(&guess, &answer, 1),
        color_at(&guess, &answer, 2),
        color_at(&guess, &answer, 3),
        color_at(&guess, &answer, 4),
    ];
    assert(r@ =~= score_spec(guess@, answer@));
    r
}

} // verus!
