//! Ordering guesses by how far they are expected to narrow a pool.
use vstd::prelude::*;
use crate::score::Word;
use crate::partition::{
    answer_code, group_of, lemma_code_bound, lemma_group_members, lemma_member_grouped, partition,
    N_PATTERNS,
};
use crate::score::score_spec;

verus! {

/// Largest pool that the search takes, so that every count it keeps fits.
pub const MAX_POOL: usize = 0x1000_0000;

/// Code of the all-exact pattern.
pub const EXACT_CODE: usize = 121;

/// Number of codes below `m` whose group is not empty.
pub open spec fn nonempty_groups(pool: Seq<Word>, guess: Seq<u8>, m: nat) -> nat
    decreases m,
{
    if m == 0 {
        0
    } else {
        nonempty_groups(pool, guess, (m - 1) as nat) + if group_of(
            pool,
            guess,
            (m - 1) as nat,
        ).len() > 0 {
            1nat
        } else {
            0nat
        }
    }
}

/// Numerator of a guess's cost: the pool's answers that it does not hit.
pub open spec fn cost_num(guess: Seq<u8>, pool: Seq<Word>) -> int {
    pool.len() - group_of(pool, guess, EXACT_CODE as nat).len()
}

/// Denominator of a guess's cost: the number of patterns it produces.
pub open spec fn cost_den(guess: Seq<u8>, pool: Seq<Word>) -> nat {
    nonempty_groups(pool, guess, N_PATTERNS as nat)
}

/// A word's bytes read as a big-endian number: numbers order words as
/// their bytes do, lexicographically.
pub open spec fn word_num(w: Seq<u8>) -> nat {
    (((w[0] as nat * 256 + w[1] as nat) * 256 + w[2] as nat) * 256 + w[3] as nat) * 256
        + w[4] as nat
}

/// Key `(num, den, tie)` stands strictly before key `y`: `num / den` is
/// smaller, or equal with a smaller tie-breaker.
pub open spec fn key_before(x: (int, int, int), y: (int, int, int)) -> bool {
    x.0 * y.1 < y.0 * x.1 || (x.0 * y.1 == y.0 * x.1 && x.2 < y.2)
}

/// Ranking key of a guess on a pool.
pub open spec fn rank_key(guess: Seq<u8>, pool: Seq<Word>) -> (int, int, int) {
    (cost_num(guess, pool), cost_den(guess, pool) as int, word_num(guess) as int)
}

/// Guess `g1` ranks strictly before `g2` on `pool`: its cost is lower, or
/// equal with a word that comes first.
pub open spec fn ranks_before(g1: Word, g2: Word, pool: Seq<Word>) -> bool {
    key_before(rank_key(g1@, pool), rank_key(g2@, pool))
}

proof fn lemma_key_asym(x: (int, int, int), y: (int, int, int))
    ensures
        key_before(x, y) ==> !key_before(y, x),
{
    assert(x.0 * y.1 == y.1 * x.0) by (nonlinear_arith);
    assert(y.0 * x.1 == x.1 * y.0) by (nonlinear_arith);
}

proof fn lemma_nonempty_bound(pool: Seq<Word>, guess: Seq<u8>, m: nat)
    ensures
        nonempty_groups(pool, guess, m) <= m,
    decreases m,
{
    if m > 0 {
        lemma_nonempty_bound(pool, guess, (m - 1) as nat);
    }
}

proof fn lemma_nonempty_positive(pool: Seq<Word>, guess: Seq<u8>, m: nat, c: nat)
    requires
        c < m,
        group_of(pool, guess, c).len() > 0,
    ensures
        nonempty_groups(pool, guess, m) >= 1,
    decreases m,
{
    if c < m - 1 {
        lemma_nonempty_positive(pool, guess, (m - 1) as nat, c);
    }
}

proof fn lemma_den_positive(guess: Seq<u8>, pool: Seq<Word>)
    requires
        pool.len() > 0,
    ensures
        cost_den(guess, pool) >= 1,
{
    lemma_member_grouped(pool, guess, 0);
    lemma_code_bound(score_spec(guess, pool[0]@));
    lemma_nonempty_positive(pool, guess, N_PATTERNS as nat, answer_code(guess, pool[0]));
}

proof fn lemma_key_trans(x: (int, int, int), y: (int, int, int), z: (int, int, int))
    requires
        x.1 > 0,
        y.1 > 0,
        z.1 > 0,
        !key_before(x, y),
        !key_before(y, z),
    ensures
        !key_before(x, z),
{
    let (a, b, c, d, e, f) = (x.0, x.1, y.0, y.1, z.0, z.1);
    assert(a * d >= c * b);
    assert(c * f >= e * d);
    assert(a * f >= e * b && (a * f == e * b ==> a * d == c * b && c * f == e * d)) by (nonlinear_arith)
        requires
            b > 0,
            d > 0,
            f > 0,
            a * d >= c * b,
            c * f >= e * d,
    ;
}

/// Not ranking before is transitive: ranking orders guesses totally.
proof fn lemma_rank_trans(x: Word, y: Word, z: Word, pool: Seq<Word>)
    requires
        pool.len() > 0,
        !ranks_before(x, y, pool),
        !ranks_before(y, z, pool),
    ensures
        !ranks_before(x, z, pool),
{
    lemma_den_positive(x@, pool);
    lemma_den_positive(y@, pool);
    lemma_den_positive(z@, pool);
    lemma_key_trans(rank_key(x@, pool), rank_key(y@, pool), rank_key(z@, pool));
}

/// Position at which `g` enters the ranked list `top`: the first from `j`
/// on that `g` ranks strictly before, or the end.
pub open spec fn first_after(top: Seq<Word>, g: Word, pool: Seq<Word>, j: int) -> int
    decreases top.len() - j,
{
    if j < 0 || j >= top.len() || ranks_before(g, top[j], pool) {
        j
    } else {
        first_after(top, g, pool, j + 1)
    }
}

/// `top` with `g` put in its place, keeping at most `n` entries.
pub open spec fn insert_ranked(top: Seq<Word>, g: Word, pool: Seq<Word>, n: nat) -> Seq<Word> {
    let p = first_after(top, g, pool, 0);
    if p < n {
        let ins = top.insert(p, g);
        if ins.len() > n {
            ins.take(n as int)
        } else {
            ins
        }
    } else {
        top
    }
}

/// The first `n` of `guesses` in ranking order on `pool`, equal ones kept in
/// the order they come.
pub open spec fn ranked(guesses: Seq<Word>, pool: Seq<Word>, n: nat) -> Seq<Word>
    decreases guesses.len(),
{
    if guesses.len() == 0 {
        Seq::empty()
    } else {
        insert_ranked(ranked(guesses.drop_last(), pool, n), guesses.last(), pool, n)
    }
}

/// The words held by `top`, in order.
pub open spec fn words_of(top: Seq<(u64, u64, u64, Word)>) -> Seq<Word> {
    top.map_values(|e: (u64, u64, u64, Word)| e.3)
}

/// Some entry of `top` holds the word `w`.
pub open spec fn holds_word(top: Seq<(u64, u64, u64, Word)>, w: Word) -> bool {
    exists|j: int| 0 <= j < top.len() && top[j].3 == w
}

fn word_number(w: &Word) -> (r: u64)
    ensures
        r == word_num(w@),
{
    ((((w[0] as u64) * 256 + w[1] as u64) * 256 + w[2] as u64) * 256 + w[3] as u64) * 256
        + w[4] as u64
}

/// The ranking key of `guess` on `answers`: the answers it leaves unsolved,
/// the number of patterns it produces, and the word as a number.
pub fn guess_cost(guess: Word, answers: &Vec<Word>) -> (r: (u64, u64, u64))
    requires
        answers@.len() <= MAX_POOL,
    ensures
        r.0 as int == rank_key(guess@, answers@).0,
        r.1 as int == rank_key(guess@, answers@).1,
        r.2 as int == rank_key(guess@, answers@).2,
        r.0 <= MAX_POOL,
        r.1 <= N_PATTERNS,
{
    let groups = partition(guess, answers);
    proof {
        lemma_group_members(answers@, guess@, EXACT_CODE as nat);
        lemma_nonempty_bound(answers@, guess@, N_PATTERNS as nat);
    }
    let num = (answers.len() - groups[EXACT_CODE].len()) as u64;
    let mut den: u64 = 0;
    let mut c: usize = 0;
    while c < N_PATTERNS
        invariant
            c <= N_PATTERNS,
            groups@.len() == N_PATTERNS,
            forall|k: int| 0 <= k < N_PATTERNS ==> #[trigger] groups@[k]@ == group_of(answers@, guess@, k as nat),
            den == nonempty_groups(answers@, guess@, c as nat),
            den <= c,
        decreases N_PATTERNS - c,
    {
        if groups[c].len() > 0 {
            den = den + 1;
        }
        c = c + 1;
    }
    (num, den, word_number(&guess))
}

/// The first `n` guesses in ranking order on `answers` (all of them if there
/// are fewer): each drawn from `guesses`, no one ranking strictly before the
/// one ahead of it, and no guess left out ranking strictly before the last.
#[verifier::rlimit(100)]
pub fn rank_guesses(guesses: &Vec<Word>, answers: &Vec<Word>, n: usize) -> (r: Vec<Word>)
    requires
        1 <= answers@.len() <= MAX_POOL,
        n >= 1,
    ensures
        r@ == ranked(guesses@, answers@, n as nat),
        r@.len() == if n < guesses@.len() {
            n as int
        } else {
            guesses@.len() as int
        },
        forall|i: int| 0 <= i < r@.len() ==> guesses@.contains(#[trigger] r@[i]),
        forall|i: int|
            0 <= i < r@.len() - 1 ==> !ranks_before(#[trigger] r@[i + 1], r@[i], answers@),
        forall|k: int|
            0 <= k < guesses@.len() && !r@.contains(#[trigger] guesses@[k]) ==> r@.len() == n
                && !ranks_before(guesses@[k], r@[n - 1], answers@),
{
    let mut top: Vec<(u64, u64, u64, Word)> = Vec::new();
    let mut i: usize = 0;
    while i < guesses.len()
        invariant
            i <= guesses@.len(),
            1 <= answers@.len() <= MAX_POOL,
            n >= 1,
            words_of(top@) == ranked(guesses@.take(i as int), answers@, n as nat),
            forall|k: int|
                0 <= k < i ==> holds_word(top@, #[trigger] guesses@[k]) || (top@.len() == n
                    && !ranks_before(guesses@[k], top@[n - 1].3, answers@)),
            top@.len() == if n < i {
                n as int
            } else {
                i as int
            },
            forall|j: int|
                0 <= j < top@.len() ==> {
                    let e = #[trigger] top@[j];
                    &&& guesses@.subrange(0, i as int).contains(e.3)
                    &&& e.0 as int == rank_key(e.3@, answers@).0
                    &&& e.1 as int == rank_key(e.3@, answers@).1
                    &&& e.2 as int == rank_key(e.3@, answers@).2
                    &&& e.0 <= MAX_POOL
                    &&& e.1 <= N_PATTERNS
                },
            forall|j: int|
                0 <= j < top@.len() - 1 ==> !ranks_before(#[trigger] top@[j + 1].3, top@[j].3, answers@),
        decreases guesses@.len() - i,
    {
        let g = guesses[i];
        let key = guess_cost(g, answers);
        let mut p: usize = 0;
        while p < top.len() && !before(key, top[p])
            invariant
                p <= top@.len(),
                1 <= answers@.len() <= MAX_POOL,
                i < guesses@.len(),
                g == guesses@[i as int],
                n >= 1,
                words_of(top@) == ranked(guesses@.take(i as int), answers@, n as nat),
                first_after(words_of(top@), g, answers@, 0) == first_after(words_of(top@), g, answers@, p as int),
                top@.len() == if n < i {
                    n as int
                } else {
                    i as int
                },
                forall|k: int|
                    0 <= k < i ==> holds_word(top@, #[trigger] guesses@[k]) || (top@.len() == n
                        && !ranks_before(guesses@[k], top@[n - 1].3, answers@)),

                key.0 <= MAX_POOL,
                key.1 <= N_PATTERNS,
                key.0 as int == rank_key(g@, answers@).0,
                key.1 as int == rank_key(g@, answers@).1,
                key.2 as int == rank_key(g@, answers@).2,
                forall|j: int|
                    0 <= j < top@.len() - 1 ==> !ranks_before(#[trigger] top@[j + 1].3, top@[j].3, answers@),
                forall|j: int|
                    0 <= j < top@.len() ==> guesses@.subrange(0, i as int).contains(#[trigger] top@[j].3),
                forall|j: int|
                    0 <= j < top@.len() ==> {
                        let e = #[trigger] top@[j];
                        &&& e.0 <= MAX_POOL
                        &&& e.1 <= N_PATTERNS
                    },
                forall|j: int| 0 <= j < p ==> !ranks_before(g, #[trigger] top@[j].3, answers@),
                forall|j: int|
                    0 <= j < top@.len() ==> {
                        let e = #[trigger] top@[j];
                        &&& e.0 as int == rank_key(e.3@, answers@).0
                        &&& e.1 as int == rank_key(e.3@, answers@).1
                        &&& e.2 as int == rank_key(e.3@, answers@).2
                    },
            decreases top@.len() - p,
        {
            proof {
                assert(words_of(top@)[p as int] == top@[p as int].3);
                assert(!ranks_before(g, top@[p as int].3, answers@));
            }
            p = p + 1;
        }
        let ghost w_old = words_of(top@);
        proof {
            if p < top@.len() {
                assert(w_old[p as int] == top@[p as int].3);
            }
            assert(first_after(w_old, g, answers@, 0) == p);
            assert(guesses@.take(i as int + 1).drop_last() =~= guesses@.take(i as int));
            assert(guesses@.take(i as int + 1).last() == g);
            assert(ranked(guesses@.take(i as int + 1), answers@, n as nat) == insert_ranked(w_old, g, answers@, n as nat));
            assert forall|j: int| 0 <= j < top@.len() implies guesses@.subrange(0, i as int + 1).contains(#[trigger] top@[j].3) by {
                let k = choose|k: int| 0 <= k < i && guesses@.subrange(0, i as int)[k] == top@[j].3;
                assert(guesses@.subrange(0, i as int + 1)[k] == top@[j].3);
            }
            assert(guesses@.subrange(0, i as int + 1)[i as int] == g);
            if p < top@.len() {
                assert(ranks_before(g, top@[p as int].3, answers@));
                lemma_key_asym(rank_key(g@, answers@), rank_key(top@[p as int].3@, answers@));
            }
        }
        if p < n {
            let ghost old_top = top@;
            top.insert(p, (key.0, key.1, key.2, g));
            let ghost ins = top@;
            if top.len() > n {
                top.truncate(n);
            }
            proof {
                let ins_w = w_old.insert(p as int, g);
                assert(words_of(ins) =~= ins_w);
                if ins.len() > n {
                    assert(words_of(top@) =~= ins_w.take(n as int));
                } else {
                    assert(words_of(top@) =~= ins_w);
                }
                assert(top@[p as int].3 == g);
                if old_top.len() == n {
                    let last = top@[n - 1].3;
                    assert(ins[n as int] == old_top[n - 1]);
                    assert(!ranks_before(old_top[n - 1].3, last, answers@)) by {
                        if p == n - 1 {
                            assert(last == g);
                            assert(ranks_before(g, old_top[p as int].3, answers@));
                            lemma_key_asym(rank_key(g@, answers@), rank_key(old_top[p as int].3@, answers@));
                        } else {
                            assert(last == old_top[n - 2].3);
                            assert(!ranks_before(old_top[(n - 2) + 1].3, old_top[n - 2].3, answers@));
                        }
                    }
                }
                assert forall|k: int|
                    0 <= k < i + 1 implies holds_word(top@, #[trigger] guesses@[k]) || (top@.len() == n
                        && !ranks_before(guesses@[k], top@[n - 1].3, answers@)) by {
                    let w = guesses@[k];
                    if k == i {
                        assert(top@[p as int].3 == w);
                    } else if holds_word(old_top, w) {
                        let j = choose|j: int| 0 <= j < old_top.len() && old_top[j].3 == w;
                        if j < p {
                            assert(top@[j].3 == w);
                        } else if j + 1 < top@.len() {
                            assert(top@[j + 1].3 == w);
                        } else {
                            assert(j == n - 1 && old_top.len() == n);
                        }
                    } else {
                        lemma_rank_trans(w, old_top[n - 1].3, top@[n - 1].3, answers@);
                    }
                }
                assert forall|j: int| 0 <= j < top@.len() - 1 implies !ranks_before(#[trigger] top@[j + 1].3, top@[j].3, answers@) by {
                    if j + 1 < p {
                        assert(top@[j] == old_top[j] && top@[j + 1] == old_top[j + 1]);
                        assert(!ranks_before(old_top[j + 1].3, old_top[j].3, answers@));
                    } else if j + 1 == p {
                        assert(top@[j] == old_top[j]);
                        assert(top@[j + 1].3 == g);
                        assert(!ranks_before(g, old_top[j].3, answers@));
                    } else if j == p {
                        assert(top@[j].3 == g);
                        assert(top@[j + 1] == old_top[j]);
                        assert(ranks_before(g, old_top[j].3, answers@));
                    } else {
                        assert(top@[j] == old_top[j - 1] && top@[j + 1] == old_top[j]);
                        assert(!ranks_before(old_top[(j - 1) + 1].3, old_top[j - 1].3, answers@));
                    }
                }
            }
        } else {
            proof {
                assert(!ranks_before(g, top@[n - 1].3, answers@));
                assert(words_of(top@) == ranked(guesses@.take(i as int + 1), answers@, n as nat));
            }
        }
        i = i + 1;
    }
    let mut r: Vec<Word> = Vec::new();
    let mut j: usize = 0;
    while j < top.len()
        invariant
            j <= top@.len(),
            r@.len() == j,
            forall|k: int| 0 <= k < j ==> #[trigger] r@[k] == top@[k].3,
        decreases top@.len() - j,
    {
        r.push(top[j].3);
        j = j + 1;
    }
    proof {
        assert(guesses@.subrange(0, guesses@.len() as int) =~= guesses@);
        assert(guesses@.take(guesses@.len() as int) =~= guesses@);
        assert(r@ =~= words_of(top@));
        assert forall|k: int| 0 <= k < r@.len() - 1 implies !ranks_before(#[trigger] r@[k + 1], r@[k], answers@) by {
            assert(r@[k + 1] == top@[k + 1].3 && r@[k] == top@[k].3);
        }
        assert forall|k: int|
            0 <= k < guesses@.len() && !r@.contains(#[trigger] guesses@[k]) implies r@.len() == n
                && !ranks_before(guesses@[k], r@[n - 1], answers@) by {
            if holds_word(top@, guesses@[k]) {
                let j = choose|j: int| 0 <= j < top@.len() && top@[j].3 == guesses@[k];
                assert(r@[j] == guesses@[k]);
            }
        }
    }
    r
}

fn before(x: (u64, u64, u64), y: (u64, u64, u64, Word)) -> (r: bool)
    requires
        x.0 <= MAX_POOL,
        x.1 <= N_PATTERNS,
        y.0 <= MAX_POOL,
        y.1 <= N_PATTERNS,
    ensures
        r == key_before((x.0 as int, x.1 as int, x.2 as int), (y.0 as int, y.1 as int, y.2 as int)),
{
    proof {
        assert(x.0 * y.1 <= MAX_POOL * N_PATTERNS) by (nonlinear_arith)
            requires x.0 <= MAX_POOL, y.1 <= N_PATTERNS;
        assert(y.0 * x.1 <= MAX_POOL * N_PATTERNS) by (nonlinear_arith)
            requires y.0 <= MAX_POOL, x.1 <= N_PATTERNS;
    }
    let a = x.0 * y.1;
    let b = y.0 * x.1;
    a < b || (a == b && x.2 < y.2)
}

} // verus!
