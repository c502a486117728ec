//! Depth-bounded search for the strategy with the fewest guesses in total.
use vstd::prelude::*;
use rayon::iter::{IntoParallelRefIterator, ParallelIterator};
use crate::score::{all_exact, score, score_spec, Colors, Word, EXACT};
use crate::partition::{
    answer_code, code_of, group_of, groups_size, lemma_code_bound, lemma_group_members,
    lemma_member_grouped,
    lemma_partition_complete, partition, N_PATTERNS,
};
use crate::rank::{rank_guesses, ranked, MAX_POOL};
use crate::tree::{max_of, sum_totals, tree_valid, Tree};

verus! {

/// Guesses a strategy may use for one answer; a search at this depth fails.
pub const MAX_DEPTH: usize = 7;

/// Settings of a search.
pub struct Params {
    /// How many of the best-ranked guesses are tried at each node.
    pub n_guesses: usize,
    /// Whether only the answers themselves may be guessed (applied by the
    /// caller when it builds the guess list).
    pub answers_only: bool,
    /// A first guess to use at the root instead of the ranked ones.
    pub starting_word: Option<Word>,
}

/// What a search from `depth` on the pool `answers` returns: nothing at or
/// past the depth bound; a leaf for a single answer; otherwise a strategy
/// exactly when the search finds one, and then the one it finds, which fits
/// in the guesses left.
pub open spec fn search_result(
    params: Params,
    depth: int,
    guesses: Seq<Word>,
    answers: Seq<Word>,
    r: Option<Tree>,
) -> bool {
    &&& depth >= MAX_DEPTH ==> r is None
    &&& (depth < MAX_DEPTH && answers.len() == 1) ==> (r matches Some(t) && t.guess == answers[0]
        && t.total_guesses == 1 && t.max_guesses == 1 && t.children@.len() == 0)
    &&& (r is Some <==> search_total(params, depth, guesses, answers) is Some)
    &&& r matches Some(t) ==> depth < MAX_DEPTH && tree_valid(
        t,
        answers,
        (MAX_DEPTH - depth) as nat,
    ) && search_tree(params, depth, guesses, answers, t)
}

/// Codes below `m` whose group of `pool` under `guess` is not empty, in
/// increasing order.
pub open spec fn nonempty_codes(pool: Seq<Word>, guess: Seq<u8>, m: nat) -> Seq<nat>
    decreases m,
{
    if m == 0 {
        Seq::empty()
    } else {
        let r = nonempty_codes(pool, guess, (m - 1) as nat);
        if group_of(pool, guess, (m - 1) as nat).len() > 0 {
            r.push((m - 1) as nat)
        } else {
            r
        }
    }
}

/// The guesses tried at a node: the starting word at the root when one is
/// given, else the first `n_guesses` in ranking order.
pub open spec fn candidates(params: Params, depth: int, guesses: Seq<Word>, pool: Seq<Word>) -> Seq<Word> {
    if depth == 0 && params.starting_word is Some {
        seq![params.starting_word->Some_0]
    } else {
        ranked(guesses, pool, params.n_guesses as nat)
    }
}

/// Total guesses below a node guessing `g`, over the groups with codes `cs`:
/// the searches' totals, the all-exact group adding nothing; `None` if the
/// search of any group fails.
pub open spec fn sub_total(
    params: Params,
    depth: int,
    guesses: Seq<Word>,
    pool: Seq<Word>,
    g: Word,
    cs: Seq<nat>,
) -> Option<nat>
    decreases MAX_DEPTH - depth, 0int, cs.len(),
{
    if depth >= MAX_DEPTH {
        None
    } else if cs.len() == 0 {
        Some(0)
    } else {
        let grp = group_of(pool, g@, cs.last());
        match sub_total(params, depth, guesses, pool, g, cs.drop_last()) {
            None => None,
            Some(s) => match search_total(params, depth + 1, guesses, grp) {
                None => None,
                Some(t) => Some(
                    s + if score_spec(g@, grp[0]@) == all_exact() {
                        0nat
                    } else {
                        t
                    },
                ),
            },
        }
    }
}

/// Total guesses of the node that guesses `g` on `pool`, if every group it
/// makes can be solved.
pub open spec fn cand_total(params: Params, depth: int, guesses: Seq<Word>, pool: Seq<Word>, g: Word) -> Option<nat>
    decreases MAX_DEPTH - depth, 1int, 0int,
{
    match sub_total(params, depth, guesses, pool, g, nonempty_codes(pool, g@, N_PATTERNS as nat)) {
        Some(s) => Some(pool.len() + s),
        None => None,
    }
}

/// Index and total of the first candidate with the least total, among those
/// that succeed.
pub open spec fn best_cand(
    params: Params,
    depth: int,
    guesses: Seq<Word>,
    pool: Seq<Word>,
    cands: Seq<Word>,
) -> Option<(int, nat)>
    decreases MAX_DEPTH - depth, 2int, cands.len(),
{
    if cands.len() == 0 {
        None
    } else {
        let b = best_cand(params, depth, guesses, pool, cands.drop_last());
        match cand_total(params, depth, guesses, pool, cands.last()) {
            None => b,
            Some(x) => match b {
                Some(y) => if x < y.1 {
                    Some((cands.len() - 1, x))
                } else {
                    b
                },
                None => Some((cands.len() - 1, x)),
            },
        }
    }
}

/// Total guesses of the strategy that the search from `depth` finds for
/// `pool`, or `None` when it finds none.
pub open spec fn search_total(params: Params, depth: int, guesses: Seq<Word>, pool: Seq<Word>) -> Option<nat>
    decreases MAX_DEPTH - depth, 3int, 0int,
{
    if depth >= MAX_DEPTH {
        None
    } else if pool.len() == 1 {
        Some(1)
    } else {
        match best_cand(params, depth, guesses, pool, candidates(params, depth, guesses, pool)) {
            Some(b) => Some(b.1),
            None => None,
        }
    }
}

/// `t` is the strategy that the search from `depth` finds for `pool`: its
/// total is the search's, a single answer gives a leaf, and otherwise it
/// guesses the chosen candidate and each child is the search's strategy for
/// its group.
pub open spec fn search_tree(params: Params, depth: int, guesses: Seq<Word>, pool: Seq<Word>, t: Tree) -> bool
    decreases MAX_DEPTH - depth,
{
    if depth >= MAX_DEPTH {
        false
    } else {
        &&& search_total(params, depth, guesses, pool) == Some(t.total_guesses as nat)
        &&& if pool.len() == 1 {
            t.children@.len() == 0 && t.guess == pool[0]
        } else {
            &&& best_cand(params, depth, guesses, pool, candidates(params, depth, guesses, pool)) is Some
            &&& t.guess == candidates(params, depth, guesses, pool)[best_cand(
                params,
                depth,
                guesses,
                pool,
                candidates(params, depth, guesses, pool),
            )->Some_0.0]
            &&& forall|i: int|
                0 <= i < t.children@.len() ==> search_tree(
                    params,
                    depth + 1,
                    guesses,
                    group_of(pool, t.guess@, code_of((#[trigger] t.children@[i]).0@)),
                    t.children@[i].1,
                )
        }
    }
}

proof fn lemma_sub_none(params: Params, depth: int, guesses: Seq<Word>, pool: Seq<Word>, g: Word, cs: Seq<nat>, k: int)
    requires
        0 <= k <= cs.len(),
        sub_total(params, depth, guesses, pool, g, cs.take(k)) is None,
    ensures
        sub_total(params, depth, guesses, pool, g, cs) is None,
    decreases cs.len(),
{
    if k < cs.len() {
        assert(cs.drop_last().take(k) =~= cs.take(k));
        lemma_sub_none(params, depth, guesses, pool, g, cs.drop_last(), k);
    } else {
        assert(cs.take(k) =~= cs);
    }
}

/// Two searches on equal inputs agree: both find a strategy or neither does,
/// and then both guess the same word first, with the same total; below that,
/// each child of either is the search's strategy for its group.
pub proof fn lemma_search_agrees(
    params: Params,
    depth: int,
    guesses: Seq<Word>,
    answers: Seq<Word>,
    r1: Option<Tree>,
    r2: Option<Tree>,
)
    requires
        search_result(params, depth, guesses, answers, r1),
        search_result(params, depth, guesses, answers, r2),
    ensures
        r1 is Some <==> r2 is Some,
        (r1 is Some && r2 is Some) ==> r1->Some_0.guess == r2->Some_0.guess
            && r1->Some_0.total_guesses == r2->Some_0.total_guesses,
{
}

/// Total size of a list of pools.
pub open spec fn pools_size(s: Seq<Vec<Word>>) -> nat
    decreases s.len(),
{
    if s.len() == 0 {
        0
    } else {
        pools_size(s.drop_last()) + s.last()@.len()
    }
}

fn is_all_exact(c: &Colors) -> (r: bool)
    ensures
        r == (c@ == all_exact()),
{
    let r = c[0] == EXACT && c[1] == EXACT && c[2] == EXACT && c[3] == EXACT && c[4] == EXACT;
    if r {
        assert(c@ =~= all_exact());
    }
    r
}

/// Relies on rayon's `par_iter().map(..).collect()` into a `Vec`: one result
/// per pool, in the pools' order, each what `solve` returns on that pool.
#[verifier::external_body]
fn solve_each_parallel(
    params: &Params,
    depth: usize,
    guesses: &Vec<Word>,
    pools: &Vec<Vec<Word>>,
) -> (r: Vec<Option<Tree>>)
    requires
        forall|j: int| 0 <= j < pools@.len() ==> 1 <= (#[trigger] pools@[j])@.len() <= MAX_POOL,
        guesses@.len() >= 1,
        params.n_guesses >= 1,
    ensures
        r@.len() == pools@.len(),
        forall|j: int| 0 <= j < pools@.len() ==> search_result(*params, depth as int, guesses@, pools@[j]@, #[trigger] r@[j]),
{
    pools.par_iter().map(|p| solve(params, depth, guesses, p)).collect()
}

/// Searches each pool in turn from `depth`.
fn solve_each(
    params: &Params,
    depth: usize,
    guesses: &Vec<Word>,
    pools: &Vec<Vec<Word>>,
) -> (r: Vec<Option<Tree>>)
    requires
        forall|j: int| 0 <= j < pools@.len() ==> 1 <= (#[trigger] pools@[j])@.len() <= MAX_POOL,
        guesses@.len() >= 1,
        params.n_guesses >= 1,
        depth <= MAX_DEPTH,
    ensures
        r@.len() == pools@.len(),
        forall|j: int| 0 <= j < pools@.len() ==> search_result(*params, depth as int, guesses@, pools@[j]@, #[trigger] r@[j]),
    decreases MAX_DEPTH - depth, 3nat, 0nat,
{
    let mut results: Vec<Option<Tree>> = Vec::new();
    let mut j: usize = 0;
    while j < pools.len()
        invariant
            j <= pools@.len(),
            results@.len() == j,
            guesses@.len() >= 1,
            params.n_guesses >= 1,
            depth <= MAX_DEPTH,
            forall|i: int| 0 <= i < pools@.len() ==> 1 <= (#[trigger] pools@[i])@.len() <= MAX_POOL,
            forall|i: int| 0 <= i < j ==> search_result(*params, depth as int, guesses@, pools@[i]@, #[trigger] results@[i]),
        decreases pools@.len() - j,
    {
        let r = solve(params, depth, guesses, &pools[j]);
        results.push(r);
        j = j + 1;
    }
    results
}

/// Builds the node for `guess` on `answers`: one subtree per pattern that the
/// guess gets, or nothing if any of them cannot be solved in the guesses left.
#[verifier::rlimit(100)]
fn evaluate(
    params: &Params,
    depth: usize,
    guesses: &Vec<Word>,
    answers: &Vec<Word>,
    guess: Word,
) -> (r: Option<Tree>)
    requires
        2 <= answers@.len() <= MAX_POOL,
        guesses@.len() >= 1,
        params.n_guesses >= 1,
        depth < MAX_DEPTH,
    ensures
        r is Some <==> cand_total(*params, depth as int, guesses@, answers@, guess) is Some,
        r matches Some(t) ==> t.guess == guess && tree_valid(t, answers@, (MAX_DEPTH - depth) as nat)
            && Some(t.total_guesses as nat) == cand_total(*params, depth as int, guesses@, answers@, guess)
            && forall|i: int|
            0 <= i < t.children@.len() ==> search_tree(
                *params,
                depth + 1,
                guesses@,
                group_of(answers@, guess@, code_of((#[trigger] t.children@[i]).0@)),
                t.children@[i].1,
            ),
    decreases MAX_DEPTH - depth, 0nat, 0nat,
{
    let levels: usize = MAX_DEPTH - depth;
    let mut groups = partition(guess, answers);
    proof {
        lemma_partition_complete(guess, answers@);
    }
    let mut keys: Vec<Colors> = Vec::new();
    let mut pools: Vec<Vec<Word>> = Vec::new();
    let ghost mut codes: Seq<nat> = Seq::empty();
    let mut c: usize = 0;
    while c < N_PATTERNS
        invariant
            c <= N_PATTERNS,
            answers@.len() <= MAX_POOL,
            groups@.len() == N_PATTERNS,
            forall|k: int|
                c <= k < N_PATTERNS ==> #[trigger] groups@[k]@ == group_of(answers@, guess@, k as nat),
            keys@.len() == pools@.len(),
            codes.len() == pools@.len(),
            codes == nonempty_codes(answers@, guess@, c as nat),
            forall|j: int| 0 <= j < codes.len() ==> #[trigger] codes[j] < c,
            forall|i: int, j: int| 0 <= i < j < codes.len() ==> #[trigger] codes[i] < #[trigger] codes[j],
            forall|j: int|
                0 <= j < pools@.len() ==> {
                    &&& (#[trigger] pools@[j])@ == group_of(answers@, guess@, codes[j])
                    &&& 1 <= pools@[j]@.len() <= answers@.len()
                    &&& keys@[j]@ == score_spec(guess@, pools@[j]@[0]@)
                    &&& code_of(keys@[j]@) == codes[j]
                },
            forall|k: nat|
                k < c && group_of(answers@, guess@, k).len() > 0 ==> exists|j: int|
                    0 <= j < codes.len() && codes[j] == k,
            pools_size(pools@) == groups_size(answers@, guess@, c as nat),
        decreases N_PATTERNS - c,
    {
        proof {
            lemma_group_members(answers@, guess@, c as nat);
        }
        if groups[c].len() > 0 {
            let mut g: Vec<Word> = Vec::new();
            std::mem::swap(&mut g, &mut groups[c]);
            let key = score(guess, g[0]);
            proof {
                assert(g@ == group_of(answers@, guess@, c as nat));
                assert(answer_code(guess@, g@[0]) == c);
                let old_codes = codes;
                codes = codes.push(c as nat);
                assert forall|k: nat|
                    k < c + 1 && group_of(answers@, guess@, k).len() > 0 implies exists|j: int|
                        0 <= j < codes.len() && codes[j] == k by {
                    if k < c {
                        let j = choose|j: int| 0 <= j < old_codes.len() && old_codes[j] == k;
                        assert(codes[j] == k);
                    } else {
                        assert(codes[codes.len() - 1] == k);
                    }
                }
            }
            let ghost old_pools = pools@;
            keys.push(key);
            pools.push(g);
            proof {
                assert(pools@.drop_last() =~= old_pools);
            }
        }
        c = c + 1;
    }
    proof {
        assert(pools_size(pools@) == answers@.len());
    }
    let results = if depth <= 1 {
        solve_each_parallel(params, depth + 1, guesses, &pools)
    } else {
        solve_each(params, depth + 1, guesses, &pools)
    };
    let ghost all_results = results@;
    let mut results = results;
    let mut children: Vec<(Colors, Tree)> = Vec::new();
    let mut total: usize = answers.len();
    let mut mx: usize = 0;
    let mut j: usize = 0;
    while j < pools.len()
        invariant
            j <= pools@.len(),
            1 <= levels <= MAX_DEPTH,
            j > 0 ==> depth + 1 < MAX_DEPTH,
            levels == MAX_DEPTH - depth,
            depth < MAX_DEPTH,
            answers@.len() <= MAX_POOL,
            pools@.len() == keys@.len(),
            all_results.len() == pools@.len(),
            forall|i: int| 0 <= i < pools@.len() ==> search_result(*params, depth + 1, guesses@, pools@[i]@, #[trigger] all_results[i]),
            results@ == all_results.subrange(j as int, all_results.len() as int),
            children@.len() == j,
            forall|i: int|
                0 <= i < j ==> {
                    &&& (#[trigger] children@[i]).0 == keys@[i]
                    &&& tree_valid(children@[i].1, pools@[i]@, (levels - 1) as nat)
                },
            total == answers@.len() + sum_totals(children@),
            codes == nonempty_codes(answers@, guess@, N_PATTERNS as nat),
            codes.len() == pools@.len(),
            forall|i: int| 0 <= i < pools@.len() ==> (#[trigger] pools@[i])@ == group_of(answers@, guess@, codes[i]) && pools@[i]@.len() >= 1
                && keys@[i]@ == score_spec(guess@, pools@[i]@[0]@) && code_of(keys@[i]@) == codes[i],
            sub_total(*params, depth as int, guesses@, answers@, guess, codes.take(j as int)) == Some(sum_totals(children@)),
            forall|i: int|
                0 <= i < j ==> search_tree(
                    *params,
                    depth + 1,
                    guesses@,
                    pools@[i]@,
                    (#[trigger] children@[i]).1,
                ),
            sum_totals(children@) <= (levels - 1) * pools_size(pools@.take(j as int)),
            pools_size(pools@.take(j as int)) <= pools_size(pools@),
            pools_size(pools@) == answers@.len(),
            mx == max_of(children@),
            mx <= levels - 1,
        decreases pools@.len() - j,
    {
        let ghost old_children = children@;
        assert(pools@.take(j as int + 1).drop_last() =~= pools@.take(j as int));
        let res = results.remove(0);
        assert(res == all_results[j as int]);
        match res {
            None => {
                proof {
                    assert(codes.take(j as int + 1).drop_last() =~= codes.take(j as int));
                    assert(codes.take(j as int + 1).last() == codes[j as int]);
                    lemma_sub_none(*params, depth as int, guesses@, answers@, guess, codes, j as int + 1);
                }
                return None;
            },
            Some(t) => {
                proof {
                    let p = pools@[j as int]@.len();
                    let s = sum_totals(old_children);
                    let q = pools_size(pools@.take(j as int));
                    assert(t.total_guesses <= (levels - 1) * p);
                    assert(pools_size(pools@.take(j as int + 1)) == q + p);
                    lemma_prefix_size(pools@, j as int + 1);
                    assert(q + p <= MAX_POOL);
                    assert(s + t.total_guesses <= (levels - 1) * (q + p)) by (nonlinear_arith)
                        requires
                            s <= (levels - 1) * q,
                            t.total_guesses <= (levels - 1) * p,
                    ;
                    assert((levels - 1) * (q + p) <= 6 * (MAX_POOL as int)) by (nonlinear_arith)
                        requires
                            levels <= 7,
                            q + p <= MAX_POOL,
                    ;

                }
                proof {
                    assert(codes.take(j as int + 1).drop_last() =~= codes.take(j as int));
                    assert(codes.take(j as int + 1).last() == codes[j as int]);
                }
                if !is_all_exact(&keys[j]) {
                    total = total + t.total_guesses;
                }
                if t.max_guesses > mx {
                    mx = t.max_guesses;
                }
                children.push((keys[j], t));
                proof {
                    assert(children@.drop_last() =~= old_children);
                }
            },
        }
        j = j + 1;
    }
    proof {
        assert(pools@.take(pools@.len() as int) =~= pools@);
        assert(codes.take(codes.len() as int) =~= codes);
        let s = sum_totals(children@);
        let n = answers@.len();
        assert(n + s <= levels * n) by (nonlinear_arith)
            requires
                s <= (levels - 1) * n,
        ;
        lemma_member_grouped(answers@, guess@, 0);
        lemma_code_bound(score_spec(guess@, answers@[0]@));
    }
    let r = Tree { guess, total_guesses: total, max_guesses: mx + 1, children };
    proof {
        let ch = r.children@;
        assert forall|a: int|
            0 <= a < answers@.len() implies exists|i: int|
                0 <= i < ch.len() && code_of(ch[i].0@) == answer_code(guess@, #[trigger] answers@[a]) by {
            lemma_member_grouped(answers@, guess@, a);
            lemma_code_bound(score_spec(guess@, answers@[a]@));
            let k = answer_code(guess@, answers@[a]);
            let i = choose|i: int| 0 <= i < codes.len() && codes[i] == k;
            assert(code_of(ch[i].0@) == k);
        }
        assert(ch.len() > 0);
    }
    Some(r)
}

proof fn lemma_prefix_size(s: Seq<Vec<Word>>, n: int)
    requires
        0 <= n <= s.len(),
    ensures
        pools_size(s.take(n)) <= pools_size(s),
    decreases s.len(),
{
    if n < s.len() {
        assert(s.drop_last().take(n) =~= s.take(n));
        lemma_prefix_size(s.drop_last(), n);
    } else {
        assert(s.take(n) =~= s);
    }
}

/// Searches from `depth` for a strategy over `answers`, trying at each node
/// the best-ranked `params.n_guesses` guesses (or the given starting word at
/// the root) and keeping the first with the fewest guesses in total.
pub fn solve(params: &Params, depth: usize, guesses: &Vec<Word>, answers: &Vec<Word>) -> (r:
    Option<Tree>)
    requires
        1 <= answers@.len() <= MAX_POOL,
        guesses@.len() >= 1,
        params.n_guesses >= 1,
    ensures
        search_result(*params, depth as int, guesses@, answers@, r),
        r matches Some(t) ==> t.max_guesses <= MAX_DEPTH - depth,
        (answers@.len() > 1 && !(depth == 0 && params.starting_word is Some) && r is Some)
            ==> guesses@.contains(r->Some_0.guess),
        (depth == 0 && answers@.len() > 1 && params.starting_word is Some && r is Some) ==> r->Some_0.guess
            == params.starting_word->Some_0,
    decreases MAX_DEPTH - depth, 2nat, 0nat,
{
    if depth >= MAX_DEPTH {
        return None;
    }
    if answers.len() == 1 {
        return Some(Tree::leaf(answers[0]));
    }
    let top: Vec<Word> = match params.starting_word {
        Some(w) if depth == 0 => {
            let mut v: Vec<Word> = Vec::new();
            v.push(w);
            v
        },
        _ => rank_guesses(guesses, answers, params.n_guesses),
    };
    let ghost cs = candidates(*params, depth as int, guesses@, answers@);
    proof {
        if depth == 0 && params.starting_word is Some {
            assert(top@ =~= cs);
        }
    }
    let mut best: Option<Tree> = None;
    let mut i: usize = 0;
    while i < top.len()
        invariant
            i <= top@.len(),
            depth < MAX_DEPTH,
            2 <= answers@.len() <= MAX_POOL,
            guesses@.len() >= 1,
            params.n_guesses >= 1,
            top@ == cs,
            (depth == 0 && params.starting_word is Some) ==> top@ == seq![params.starting_word->Some_0],
            !(depth == 0 && params.starting_word is Some) ==> forall|k: int|
                0 <= k < top@.len() ==> guesses@.contains(#[trigger] top@[k]),
            best is Some <==> best_cand(*params, depth as int, guesses@, answers@, cs.take(i as int)) is Some,
            best matches Some(t) ==> {
                let b = best_cand(*params, depth as int, guesses@, answers@, cs.take(i as int))->Some_0;
                &&& 0 <= b.0 < i
                &&& t.total_guesses == b.1
                &&& t.guess == top@[b.0]
                &&& tree_valid(t, answers@, (MAX_DEPTH - depth) as nat)
                &&& forall|k: int|
                    0 <= k < t.children@.len() ==> search_tree(
                        *params,
                        depth + 1,
                        guesses@,
                        group_of(answers@, t.guess@, code_of((#[trigger] t.children@[k]).0@)),
                        t.children@[k].1,
                    )
            },
        decreases top@.len() - i,
    {
        let cand = evaluate(params, depth, guesses, answers, top[i]);
        proof {
            assert(cs.take(i as int + 1).drop_last() =~= cs.take(i as int));
            assert(cs.take(i as int + 1).last() == top@[i as int]);
        }
        match cand {
            Some(t) => {
                let better = match &best {
                    Some(b) => t.total_guesses < b.total_guesses,
                    None => true,
                };
                if better {
                    best = Some(t);
                }
            },
            None => {},
        }
        i = i + 1;
    }
    proof {
        assert(cs.take(top@.len() as int) =~= cs);
    }
    best
}

} // verus!
