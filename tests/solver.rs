use wordle_solver::partition::{partition, pattern_code, N_PATTERNS};
use wordle_solver::rank::{guess_cost, rank_guesses};
use wordle_solver::score::{score, to_word, Word};
use wordle_solver::search::{solve, Params};
use wordle_solver::tree::Tree;

fn w(s: &str) -> Word {
    to_word(s.as_bytes())
}

fn words(list: &[&str]) -> Vec<Word> {
    list.iter().map(|s| w(s)).collect()
}

fn params(n: usize) -> Params {
    Params { n_guesses: n, answers_only: false, starting_word: None }
}

const SMALL: [&str; 10] = [
    "silly", "hotel", "daily", "cigar", "rebut", "sissy", "humph", "awake", "blush", "focal",
];

fn check_node(t: &Tree, pool: &[Word], depth: usize) {
    assert!(depth < 7);
    if t.children.is_empty() {
        assert_eq!(pool.len(), 1);
        assert_eq!(t.guess, pool[0]);
        assert_eq!(t.total_guesses, 1);
        assert_eq!(t.max_guesses, 1);
        return;
    }
    let mut total = pool.len();
    let mut max = 0;
    let mut seen = 0;
    for (key, child) in &t.children {
        let sub: Vec<Word> = pool.iter().copied().filter(|a| score(t.guess, *a) == *key).collect();
        seen += sub.len();
        check_node(child, &sub, depth + 1);
        if *key != w("ggggg") {
            total += child.total_guesses;
        }
        max = max.max(child.max_guesses);
    }
    assert_eq!(seen, pool.len());
    assert_eq!(t.total_guesses, total);
    assert_eq!(t.max_guesses, max + 1);
}

#[test]
fn test_colors() {
    let colors = score(w("silly"), w("hotel"));
    assert_eq!(colors, w("bbybb"));
    let colors = score(w("silly"), w("daily"));
    assert_eq!(colors, w("bybgg"));
}

#[test]
fn score_repeated_letter_counts_once() {
    assert_eq!(score(w("eerie"), w("crane")), w("bbybg"));
    assert_eq!(score(w("lolly"), w("hello")), w("byggb"));
    assert_eq!(score(w("crane"), w("crane")), w("ggggg"));
    assert_eq!(score(w("abcde"), w("fghij")), w("bbbbb"));
}

#[test]
fn score_labels_and_letter_bound() {
    for g in SMALL {
        for a in SMALL {
            let c = score(w(g), w(a));
            for i in 0..5 {
                assert!(c[i] == b'g' || c[i] == b'y' || c[i] == b'b');
            }
            for letter in b'a'..=b'z' {
                let hit = (0..5).filter(|&i| w(g)[i] == letter && c[i] != b'b').count();
                let occ = (0..5).filter(|&i| w(a)[i] == letter).count();
                assert!(hit <= occ);
            }
        }
    }
}

#[test]
fn to_word_keeps_bytes() {
    assert_eq!(to_word(b"hello"), *b"hello");
}

#[test]
fn pattern_codes() {
    assert_eq!(pattern_code(&w("bbbbb")), 0);
    assert_eq!(pattern_code(&w("ggggg")), 121);
    assert_eq!(pattern_code(&w("yyyyy")), 242);
    assert_eq!(pattern_code(&w("bbbbg")), 1);
}

#[test]
fn partition_keeps_every_answer_once() {
    let answers = words(&SMALL);
    let groups = partition(w("silly"), &answers);
    assert_eq!(groups.len(), N_PATTERNS);
    let mut all: Vec<Word> = groups.iter().flatten().copied().collect();
    let mut expected = answers.clone();
    all.sort();
    expected.sort();
    assert_eq!(all, expected);
    for (code, g) in groups.iter().enumerate() {
        for a in g {
            assert_eq!(pattern_code(&score(w("silly"), *a)), code);
        }
    }
    assert_eq!(groups[121], vec![w("silly")]);
}

#[test]
fn guess_cost_values() {
    let answers = words(&["silly", "hotel", "daily"]);
    // patterns: ggggg, bbybb, bybgg: three groups, two answers not hit
    assert_eq!(guess_cost(w("silly"), &answers), (2, 3, u64::from_be_bytes([0, 0, 0, b's', b'i', b'l', b'l', b'y'])));
    // "zzzzz" gets bbbbb on all three
    let c = guess_cost(w("zzzzz"), &answers);
    assert_eq!((c.0, c.1), (3, 1));
}

#[test]
fn rank_orders_by_cost_then_word() {
    let answers = words(&["silly", "hotel", "daily"]);
    let guesses = words(&["zzzzz", "hotel", "silly", "daily"]);
    let top = rank_guesses(&guesses, &answers, 20);
    assert_eq!(top, words(&["daily", "silly", "hotel", "zzzzz"]));
    let top = rank_guesses(&guesses, &answers, 2);
    assert_eq!(top, words(&["daily", "silly"]));
}

#[test]
fn solve_single_answer_is_leaf() {
    let answers = words(&["cigar"]);
    let guesses = words(&SMALL);
    let t = solve(&params(20), 0, &guesses, &answers).unwrap();
    assert_eq!(t.guess, w("cigar"));
    assert_eq!(t.total_guesses, 1);
    assert_eq!(t.max_guesses, 1);
    assert!(t.children.is_empty());
}

#[test]
fn solve_at_depth_bound_fails() {
    let answers = words(&["cigar"]);
    let guesses = words(&SMALL);
    assert!(solve(&params(20), 7, &guesses, &answers).is_none());
}

#[test]
fn solve_small_set_statistics() {
    let answers = words(&SMALL);
    let t = solve(&params(20), 0, &answers, &answers).unwrap();
    check_node(&t, &answers, 0);
    assert!(t.max_guesses <= 7);
    assert!(t.total_guesses >= answers.len());
}

#[test]
fn solve_two_answers() {
    let answers = words(&["silly", "daily"]);
    let t = solve(&params(20), 0, &answers, &answers).unwrap();
    assert_eq!(t.guess, w("daily"));
    assert_eq!(t.total_guesses, 3);
    assert_eq!(t.max_guesses, 2);
    assert_eq!(t.children.len(), 2);
}

#[test]
fn solve_uses_starting_word() {
    let answers = words(&SMALL);
    let p = Params { n_guesses: 20, answers_only: true, starting_word: Some(w("humph")) };
    let t = solve(&p, 0, &answers, &answers).unwrap();
    assert_eq!(t.guess, w("humph"));
    check_node(&t, &answers, 0);
}

#[test]
fn solve_is_deterministic() {
    let answers = words(&SMALL);
    let a = solve(&params(20), 0, &answers, &answers).unwrap();
    let b = solve(&params(20), 0, &answers, &answers).unwrap();
    let mut out_a = Vec::new();
    let mut out_b = Vec::new();
    a.write(&mut out_a, Vec::new());
    b.write(&mut out_b, Vec::new());
    assert_eq!(out_a, out_b);
    assert_eq!(a.total_guesses, b.total_guesses);
}

#[test]
fn wider_search_is_no_worse() {
    let answers = words(&SMALL);
    let wide = solve(&params(20), 0, &answers, &answers).unwrap();
    let narrow = solve(&params(1), 0, &answers, &answers).unwrap();
    assert!(wide.total_guesses <= narrow.total_guesses);
}

#[test]
fn write_emits_one_line_per_answer() {
    let answers = words(&["silly", "daily"]);
    let t = solve(&params(20), 0, &answers, &answers).unwrap();
    let mut out = Vec::new();
    t.write(&mut out, Vec::new());
    let text = String::from_utf8(out).unwrap();
    assert_eq!(text, "daily,silly\ndaily,daily\n");
}

#[test]
fn leaf_statistics() {
    let t = Tree::leaf(w("hotel"));
    assert_eq!((t.total_guesses, t.max_guesses, t.children.len()), (1, 1, 0));
    let mut out = Vec::new();
    t.write(&mut out, b"abc,".to_vec());
    assert_eq!(out, b"abc,hotel\n".to_vec());
}

#[test]
fn rank_keeps_best_when_narrow() {
    let answers = words(&["silly", "hotel", "daily"]);
    let guesses = words(&["zzzzz", "hotel", "silly"]);
    assert_eq!(rank_guesses(&guesses, &answers, 1), words(&["silly"]));
    let guesses = words(&["silly", "daily"]);
    assert_eq!(rank_guesses(&guesses, &answers, 1), words(&["daily"]));
}
