use corrset::engine::{to_questions, BitsetCorrSet, IvecCorrSet, NaiveCorrSet};
use corrset::fused::CorrSetFused;
use corrset::outer::{CorrSetChunked, CorrSetSerial};
use corrset::store::AllocCorrSet;
use corrset::{CorrSetError, Question, Row, User};

fn mk(u: &str, q: &str, s: u32) -> Row {
    Row { user: User(u.to_string()), question: Question(q.to_string()), score: s }
}

fn mock_data() -> Vec<Row> {
    vec![
        mk("a", "1", 1),
        mk("a", "2", 1),
        mk("a", "3", 0),
        mk("b", "1", 0),
        mk("b", "2", 0),
        mk("b", "3", 1),
        mk("c", "1", 1),
        mk("c", "2", 1),
        mk("c", "3", 0),
    ]
}

fn names_of(store: &AllocCorrSet, sel: &Vec<corrset::topn::Scored>) -> Vec<Vec<String>> {
    to_questions(&store.domain, sel)
        .into_iter()
        .map(|qs| qs.into_iter().map(|q| q.0).collect())
        .collect()
}

#[test]
fn end_to_end_mock_fixture() {
    let rows = mock_data();
    let store = AllocCorrSet::build(&rows);
    let sel = NaiveCorrSet::k_sets(&store, 2, 10).unwrap();
    let names = names_of(&store, &sel);
    assert!(names.len() >= 1);
    // The best subset pairs questions 1 and 2: their per-user sums are
    // a=2, b=0, c=2, perfectly aligned with the grand totals 2, 1, 2.
    let mut best = names[0].clone();
    best.sort();
    assert_eq!(best, vec!["1".to_string(), "2".to_string()]);
}

#[test]
fn strategy_equivalence_on_mock_data() {
    let rows = mock_data();
    let store = AllocCorrSet::build(&rows);
    let a = NaiveCorrSet::k_sets(&store, 2, 10).unwrap();
    let b = BitsetCorrSet::k_sets(&store, 2, 10).unwrap();
    let c = IvecCorrSet::k_sets(&store, 2, 10).unwrap();
    let fused = CorrSetFused { inner: AllocCorrSet::build(&rows) };
    let d = fused.k_set(2, 10).unwrap();
    let qa: Vec<Vec<usize>> = a.iter().map(|e| e.qs.clone()).collect();
    let qb: Vec<Vec<usize>> = b.iter().map(|e| e.qs.clone()).collect();
    let qc: Vec<Vec<usize>> = c.iter().map(|e| e.qs.clone()).collect();
    let qd: Vec<Vec<usize>> = d.iter().map(|e| e.qs.clone()).collect();
    assert_eq!(qa, qb);
    assert_eq!(qa, qc);
    assert_eq!(qa, qd);
    // The exact correlation evidence agrees as well.
    for (x, y) in a.iter().zip(d.iter()) {
        assert_eq!(x.corr.neg, y.corr.neg);
        assert_eq!(x.corr.num.limbs, y.corr.num.limbs);
        assert_eq!(x.corr.dx.limbs, y.corr.dx.limbs);
        assert_eq!(x.corr.dy.limbs, y.corr.dy.limbs);
    }
}

#[test]
fn parallel_merge_determinism() {
    let rows = mock_data();
    let store = AllocCorrSet::build(&rows);
    let cands = corrset::combos::all_combinations(store.domain.questions.len(), 2);
    // One shard versus many shards: identical selections.
    let one = CorrSetChunked::k_sets(&store, &cands, 10, 1000);
    let many = CorrSetChunked::k_sets(&store, &cands, 10, 1);
    let two = CorrSetChunked::k_sets(&store, &cands, 10, 2);
    let qs_one: Vec<Vec<usize>> = one.iter().map(|e| e.qs.clone()).collect();
    let qs_many: Vec<Vec<usize>> = many.iter().map(|e| e.qs.clone()).collect();
    let qs_two: Vec<Vec<usize>> = two.iter().map(|e| e.qs.clone()).collect();
    assert_eq!(qs_one, qs_many);
    assert_eq!(qs_one, qs_two);
}

#[test]
fn degenerate_filtering_identical_totals() {
    // Every user scores 1 on both questions: all grand totals equal, every
    // candidate's correlation degenerate, so the selection is empty.
    let rows = vec![
        mk("a", "1", 1),
        mk("a", "2", 1),
        mk("b", "1", 1),
        mk("b", "2", 1),
        mk("c", "1", 1),
        mk("c", "2", 1),
    ];
    let store = AllocCorrSet::build(&rows);
    let sel = NaiveCorrSet::k_sets(&store, 2, 10).unwrap();
    assert_eq!(sel.len(), 0);
    let single = CorrSetSerial::k_set(
        &store,
        &corrset::combos::all_combinations(store.domain.questions.len(), 2),
    );
    assert!(single.is_none());
}

#[test]
fn subset_sum_is_exact_integer_addition() {
    let rows = mock_data();
    let store = AllocCorrSet::build(&rows);
    let q1 = store.domain.index_of_question(&Question("1".to_string())).unwrap();
    let q2 = store.domain.index_of_question(&Question("2".to_string())).unwrap();
    let ua = store.domain.index_of_user(&User("a".to_string())).unwrap();
    let ub = store.domain.index_of_user(&User("b".to_string())).unwrap();
    let mut cand = vec![q1, q2];
    cand.sort();
    assert_eq!(store.subset_sum(&cand, ua), 1 + 1);
    assert_eq!(store.subset_sum(&cand, ub), 0 + 0);
}

#[test]
fn zero_subset_size_is_rejected() {
    let rows = mock_data();
    let store = AllocCorrSet::build(&rows);
    assert_eq!(
        NaiveCorrSet::k_sets(&store, 0, 10).unwrap_err(),
        CorrSetError::InvalidSubsetSize
    );
    let fused = CorrSetFused { inner: store };
    assert_eq!(fused.k_set(0, 10).unwrap_err(), CorrSetError::InvalidSubsetSize);
}

#[test]
fn oversized_subset_yields_empty_result() {
    let rows = mock_data();
    let store = AllocCorrSet::build(&rows);
    let sel = BitsetCorrSet::k_sets(&store, 7, 10).unwrap();
    assert_eq!(sel.len(), 0);
    let fused = CorrSetFused { inner: store };
    let sel2 = fused.k_set(7, 10).unwrap();
    assert_eq!(sel2.len(), 0);
}

#[test]
fn unknown_identity_fails_loudly() {
    let rows = mock_data();
    let store = AllocCorrSet::build(&rows);
    assert_eq!(
        store.domain.index_of_user(&User("nobody".to_string())).unwrap_err(),
        CorrSetError::UnknownIdentity
    );
    assert_eq!(
        store.domain.index_of_question(&Question("9".to_string())).unwrap_err(),
        CorrSetError::UnknownIdentity
    );
    assert!(store.domain.index_of_user(&User("a".to_string())).is_ok());
}

#[test]
fn duplicate_rows_last_write_wins() {
    let rows = vec![mk("a", "1", 5), mk("b", "1", 3), mk("a", "1", 2)];
    let store = AllocCorrSet::build(&rows);
    let ua = store.domain.index_of_user(&User("a".to_string())).unwrap();
    let q1 = store.domain.index_of_question(&Question("1".to_string())).unwrap();
    // The later observation replaced the earlier one.
    assert_eq!(store.subset_sum(&vec![q1], ua), 2);
    assert_eq!(store.grand[ua], 2);
}

#[test]
fn top_n_truncates_and_orders_best_first() {
    let rows = mock_data();
    let store = AllocCorrSet::build(&rows);
    let all = NaiveCorrSet::k_sets(&store, 2, 10).unwrap();
    let just_one = NaiveCorrSet::k_sets(&store, 2, 1).unwrap();
    assert_eq!(just_one.len(), 1);
    assert_eq!(just_one[0].qs, all[0].qs);
    // Each retained result ranks no lower than the next.
    for w in all.windows(2) {
        assert!(corrset::topn::scored_ahead(&w[0], &w[1]));
    }
}

/// The exact correlation triple as comparable plain data.
fn corr_key_of(e: &corrset::topn::Scored) -> (bool, Vec<u64>, Vec<u64>, Vec<u64>) {
    let trim = |v: &Vec<u64>| {
        let mut v = v.clone();
        while v.last() == Some(&0) {
            v.pop();
        }
        v
    };
    (e.corr.neg, trim(&e.corr.num.limbs), trim(&e.corr.dx.limbs), trim(&e.corr.dy.limbs))
}

#[test]
fn order_invariance_of_top_values() {
    // Feeding the rows in a different order changes the ordinal assignment
    // but not the ranked correlation values.
    let rows = mock_data();
    let mut reversed = rows.clone();
    reversed.reverse();
    let s1 = AllocCorrSet::build(&rows);
    let s2 = AllocCorrSet::build(&reversed);
    let a = NaiveCorrSet::k_sets(&s1, 2, 10).unwrap();
    let b = NaiveCorrSet::k_sets(&s2, 2, 10).unwrap();
    let mut va: Vec<_> = a.iter().map(corr_key_of).collect();
    let mut vb: Vec<_> = b.iter().map(corr_key_of).collect();
    va.sort();
    vb.sort();
    assert_eq!(va, vb);
    // And the best subset is the same set of identifiers either way.
    let mut na: Vec<String> = names_of(&s1, &a)[0].clone();
    let mut nb: Vec<String> = names_of(&s2, &b)[0].clone();
    na.sort();
    nb.sort();
    assert_eq!(na, nb);
}

#[test]
fn strategies_agree_on_a_larger_dataset() {
    // A deterministic pseudo-random dataset: 8 questions, 6 users, sparse.
    let mut rows = Vec::new();
    let mut state: u64 = 0x243f6a8885a308d3;
    let mut next = move || {
        state = state.wrapping_mul(6364136223846793005).wrapping_add(1442695040888963407);
        (state >> 33) as u32
    };
    for q in 0..8u32 {
        for u in 0..6u32 {
            let r = next();
            if r % 4 != 0 {
                rows.push(mk(&format!("u{u}"), &format!("q{q}"), r % 7));
            }
        }
    }
    let store = AllocCorrSet::build(&rows);
    for k in 1..=4usize {
        let a = NaiveCorrSet::k_sets(&store, k, 10).unwrap();
        let b = BitsetCorrSet::k_sets(&store, k, 10).unwrap();
        let fused = CorrSetFused { inner: AllocCorrSet::build(&rows) };
        let c = fused.k_set(k, 10).unwrap();
        let cands = corrset::combos::all_combinations(store.domain.questions.len(), k);
        let d = CorrSetChunked::k_sets(&store, &cands, 10, 3);
        let qa: Vec<Vec<usize>> = a.iter().map(|e| e.qs.clone()).collect();
        assert_eq!(qa, b.iter().map(|e| e.qs.clone()).collect::<Vec<_>>());
        assert_eq!(qa, c.iter().map(|e| e.qs.clone()).collect::<Vec<_>>());
        assert_eq!(qa, d.iter().map(|e| e.qs.clone()).collect::<Vec<_>>());
    }
}
