//! Splitting a pool of answers by the feedback a guess gets on each.
use vstd::prelude::*;
use crate::score::{score, score_spec, Colors, Word, EXACT, PRESENT};

verus! {

/// Number of distinct feedback patterns, and bound on their codes.
pub const N_PATTERNS: usize = 243;

/// Base-three digit of one feedback symbol.
pub open spec fn digit(x: u8) -> nat {
    if x == EXACT {
        1
    } else if x == PRESENT {
        2
    } else {
        0
    }
}

/// Code of a pattern: its digits read as a base-three number, first
/// position most significant. Codes order patterns as their bytes do.
pub open spec fn code_of(s: Seq<u8>) -> nat {
    (((digit(s[0]) * 3 + digit(s[1])) * 3 + digit(s[2])) * 3 + digit(s[3])) * 3 + digit(s[4])
}

/// Code of the pattern that `guess` gets on `answer`.
pub open spec fn answer_code(guess: Seq<u8>, answer: Word) -> nat {
    code_of(score_spec(guess, answer@))
}

/// The answers of `pool`, in order, whose pattern against `guess` has code `k`.
pub open spec fn group_of(pool: Seq<Word>, guess: Seq<u8>, k: nat) -> Seq<Word>
    decreases pool.len(),
{
    if pool.len() == 0 {
        Seq::empty()
    } else {
        let rest = group_of(pool.drop_last(), guess, k);
        if answer_code(guess, pool.last()) == k {
            rest.push(pool.last())
        } else {
            rest
        }
    }
}

/// Number of copies of `w` in `s`.
pub open spec fn count_in(s: Seq<Word>, w: Word) -> nat
    decreases s.len(),
{
    if s.len() == 0 {
        0
    } else {
        count_in(s.drop_last(), w) + if s.last() == w {
            1nat
        } else {
            0nat
        }
    }
}

/// Copies of `w` over the groups with codes below `m`.
pub open spec fn groups_count(pool: Seq<Word>, guess: Seq<u8>, w: Word, m: nat) -> nat
    decreases m,
{
    if m == 0 {
        0
    } else {
        groups_count(pool, guess, w, (m - 1) as nat) + count_in(
            group_of(pool, guess, (m - 1) as nat),
            w,
        )
    }
}

/// Total size of the groups with codes below `m`.
pub open spec fn groups_size(pool: Seq<Word>, guess: Seq<u8>, m: nat) -> nat
    decreases m,
{
    if m == 0 {
        0
    } else {
        groups_size(pool, guess, (m - 1) as nat) + group_of(pool, guess, (m - 1) as nat).len()
    }
}

/// Every pattern code is below the number of patterns.
pub proof fn lemma_code_bound(s: Seq<u8>)
    ensures
        code_of(s) < N_PATTERNS,
{
}

proof fn lemma_group_push(pool: Seq<Word>, guess: Seq<u8>, x: Word, k: nat)
    ensures
        group_of(pool.push(x), guess, k) == if answer_code(guess, x) == k {
            group_of(pool, guess, k).push(x)
        } else {
            group_of(pool, guess, k)
        },
{
    assert(pool.push(x).drop_last() =~= pool);
}

proof fn lemma_groups_push(pool: Seq<Word>, guess: Seq<u8>, x: Word, w: Word, m: nat)
    ensures
        groups_count(pool.push(x), guess, w, m) == groups_count(pool, guess, w, m) + if answer_code(
            guess,
            x,
        ) < m && x == w {
            1nat
        } else {
            0nat
        },
        groups_size(pool.push(x), guess, m) == groups_size(pool, guess, m) + if answer_code(
            guess,
            x,
        ) < m {
            1nat
        } else {
            0nat
        },
    decreases m,
{
    if m > 0 {
        lemma_groups_push(pool, guess, x, w, (m - 1) as nat);
        lemma_group_push(pool, guess, x, (m - 1) as nat);
        let g = group_of(pool, guess, (m - 1) as nat);
        assert(g.push(x).drop_last() =~= g);
    }
}

/// Members of a group lie in the pool and all get the group's code.
pub proof fn lemma_group_members(pool: Seq<Word>, guess: Seq<u8>, k: nat)
    ensures
        group_of(pool, guess, k).len() <= pool.len(),
        forall|i: int|
            0 <= i < group_of(pool, guess, k).len() ==> answer_code(
                guess,
                #[trigger] group_of(pool, guess, k)[i],
            ) == k && pool.contains(group_of(pool, guess, k)[i]),
    decreases pool.len(),
{
    if pool.len() > 0 {
        lemma_group_members(pool.drop_last(), guess, k);
        let rest = group_of(pool.drop_last(), guess, k);
        assert forall|i: int|
            0 <= i < group_of(pool, guess, k).len() implies answer_code(
                guess,
                #[trigger] group_of(pool, guess, k)[i],
            ) == k && pool.contains(group_of(pool, guess, k)[i]) by {
            if i < rest.len() {
                assert(pool.drop_last().contains(rest[i]));
                let j = choose|j: int| 0 <= j < pool.drop_last().len() && pool.drop_last()[j] == rest[i];
                assert(pool[j] == rest[i]);
            } else {
                assert(pool[pool.len() - 1] == pool.last());
            }
        }
    }
}

/// Splitting a pool by the pattern a guess gets loses and repeats nothing:
/// over all groups, each word occurs as often as in the pool, the sizes add
/// up to the pool's, and each member lies in the group of its own pattern.
pub proof fn lemma_partition_complete(guess: Word, pool: Seq<Word>)
    ensures
        forall|w: Word|
            #[trigger] groups_count(pool, guess@, w, N_PATTERNS as nat) == count_in(pool, w),
        groups_size(pool, guess@, N_PATTERNS as nat) == pool.len(),
        forall|k: nat, i: int|
            0 <= i < group_of(pool, guess@, k).len() ==> answer_code(
                guess@,
                #[trigger] group_of(pool, guess@, k)[i],
            ) == k,
    decreases pool.len(),
{
    assert forall|k: nat, i: int|
        0 <= i < group_of(pool, guess@, k).len() implies answer_code(
            guess@,
            #[trigger] group_of(pool, guess@, k)[i],
        ) == k by {
        lemma_group_members(pool, guess@, k);
    }
    if pool.len() == 0 {
        assert forall|w: Word|
            #[trigger] groups_count(pool, guess@, w, N_PATTERNS as nat) == count_in(pool, w) by {
            lemma_zero_groups(pool, guess@, w, N_PATTERNS as nat);
        }
        lemma_zero_groups(pool, guess@, guess, N_PATTERNS as nat);
    } else {
        let init = pool.drop_last();
        let x = pool.last();
        lemma_partition_complete(guess, init);
        assert(init.push(x) =~= pool);
        lemma_code_bound(score_spec(guess@, x@));
        assert forall|w: Word|
            #[trigger] groups_count(pool, guess@, w, N_PATTERNS as nat) == count_in(pool, w) by {
            lemma_groups_push(init, guess@, x, w, N_PATTERNS as nat);
        }
        lemma_groups_push(init, guess@, x, guess, N_PATTERNS as nat);
    }
}

proof fn lemma_zero_groups(pool: Seq<Word>, guess: Seq<u8>, w: Word, m: nat)
    requires
        pool.len() == 0,
    ensures
        groups_count(pool, guess, w, m) == 0,
        groups_size(pool, guess, m) == 0,
    decreases m,
{
    if m > 0 {
        lemma_zero_groups(pool, guess, w, (m - 1) as nat);
    }
}

/// Each answer of a pool lies in a group that is not empty.
pub proof fn lemma_member_grouped(pool: Seq<Word>, guess: Seq<u8>, a: int)
    requires
        0 <= a < pool.len(),
    ensures
        group_of(pool, guess, answer_code(guess, pool[a])).len() > 0,
    decreases pool.len(),
{
    if a < pool.len() - 1 {
        lemma_member_grouped(pool.drop_last(), guess, a);
    }
}

/// Code of a pattern as computed by `score`.
pub fn pattern_code(c: &Colors) -> (r: usize)
    ensures
        r == code_of(c@),
        r < N_PATTERNS,
{
    let mut r: usize = 0;
    let mut i: usize = 0;
    while i < 5
        invariant
            i <= 5,
            r < 243,
            i == 0 ==> r == 0,
            i == 1 ==> r == digit(c@[0]),
            i == 2 ==> r == digit(c@[0]) * 3 + digit(c@[1]),
            i == 3 ==> r == (digit(c@[0]) * 3 + digit(c@[1])) * 3 + digit(c@[2]),
            i == 4 ==> r == ((digit(c@[0]) * 3 + digit(c@[1])) * 3 + digit(c@[2])) * 3 + digit(c@[3]),
            i == 5 ==> r == code_of(c@),
            r < pow3(i as nat),
        decreases 5 - i,
    {
        let d: usize = if c[i] == EXACT {
            1
        } else if c[i] == PRESENT {
            2
        } else {
            0
        };
        r = r * 3 + d;
        i = i + 1;
    }
    r
}

spec fn pow3(n: nat) -> nat {
    if n == 0 {
        1
    } else if n == 1 {
        3
    } else if n == 2 {
        9
    } else if n == 3 {
        27
    } else if n == 4 {
        81
    } else {
        243
    }
}

/// Splits `answers` by the pattern `guess` gets on each: the result holds one
/// group per pattern code, each keeping the order of `answers`.
pub fn partition(guess: Word, answers: &Vec<Word>) -> (r: Vec<Vec<Word>>)
    ensures
        r@.len() == N_PATTERNS,
        forall|k: int| 0 <= k < N_PATTERNS ==> #[trigger] r@[k]@ == group_of(answers@, guess@, k as nat),
{
    let mut groups: Vec<Vec<Word>> = Vec::new();
    let mut k: usize = 0;
    while k < N_PATTERNS
        invariant
            k <= N_PATTERNS,
            groups@.len() == k,
            forall|j: int| 0 <= j < k ==> (#[trigger] groups@[j])@.len() == 0,
        decreases N_PATTERNS - k,
    {
        groups.push(Vec::new());
        k = k + 1;
    }
    let mut i: usize = 0;
    while i < answers.len()
        invariant
            i <= answers@.len(),
            groups@.len() == N_PATTERNS,
            forall|j: int|
                0 <= j < N_PATTERNS ==> #[trigger] groups@[j]@ == group_of(
                    answers@.subrange(0, i as int),
                    guess@,
                    j as nat,
                ),
        decreases answers@.len() - i,
    {
        let a = answers[i];
        let code = pattern_code(&score(guess, a));
        proof {
            assert(answers@.subrange(0, i as int + 1).drop_last() =~= answers@.subrange(0, i as int));
        }
        groups[code].push(a);
        i = i + 1;
    }
    assert(answers@.subrange(0, answers@.len() as int) =~= answers@);
    groups
}

} // verus!
