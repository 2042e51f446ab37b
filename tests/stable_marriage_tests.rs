use std::cmp::Ordering;
use todiff::stable_marriage::{stable_marriage, stable_matching, Matcher};

struct IndexMatcher(Vec<Vec<usize>>);

impl Matcher for IndexMatcher {
    type Item = usize;
    type Target = usize;

    fn is_admissible(&self, x: &usize, y: &usize) -> bool {
        self.0[*x].iter().position(|j| j == y).is_some()
    }

    fn cmp_3way(&self, from: &usize, left: &usize, right: &usize) -> Ordering {
        let pos_left = self.0[*from].iter().position(|j| j == left);
        let pos_right = self.0[*from].iter().position(|j| j == right);
        pos_left.cmp(&pos_right)
    }

    fn is_perfect_match(&self, _x: &usize, _y: &usize) -> bool {
        false
    }
}

// Preference rankings, most preferred first, of positions in the other list.
fn stable_marriage_from_preference_lists(
    men: Vec<Vec<usize>>,
    women: Vec<Vec<usize>>,
) -> (Vec<Option<usize>>, Vec<Option<usize>>) {
    let n_men = men.len();
    let n_women = women.len();
    let men_matcher = IndexMatcher(men);
    let women_matcher = IndexMatcher(women);

    let men_indices: Vec<usize> = (0..n_men).collect();
    let women_indices: Vec<usize> = (0..n_women).collect();
    let (matches_women, _) = stable_marriage(men_indices, women_indices, &men_matcher, &women_matcher);

    let mut matches_men = vec![None; n_men];
    for (i, mtch) in &matches_women {
        if let Some(j) = mtch {
            matches_men[*j] = Some(*i);
        }
    }

    (matches_men, matches_women.into_iter().map(|x| x.1).collect())
}

fn test_case(
    init_men: Vec<Vec<usize>>,
    init_women: Vec<Vec<usize>>,
    expected_men: Vec<Option<usize>>,
    expected_women: Vec<Option<usize>>,
) {
    assert_eq!(
        stable_marriage_from_preference_lists(init_men, init_women),
        (expected_men, expected_women)
    );
}

#[test]
fn test_stable_marriage() {
    let men = vec![vec![3, 1, 2, 0], vec![1, 0, 2, 3], vec![0, 1, 2, 3], vec![0, 1, 2, 3]];
    let women = vec![vec![0, 1, 2, 3], vec![0, 1, 2, 3], vec![0, 1, 2, 3], vec![0, 1, 2, 3]];

    let expected_men = vec![Some(3), Some(1), Some(0), Some(2)];
    let expected_women = vec![Some(2), Some(1), Some(3), Some(0)];

    test_case(men, women, expected_men, expected_women);

    let men = vec![vec![1, 2, 3, 0], vec![0, 2, 1, 3], vec![0, 3, 2, 1], vec![3, 1, 0, 2]];
    let women = vec![vec![0, 3, 2, 1], vec![1, 0, 3, 2], vec![2, 1, 3, 0], vec![2, 3, 1, 0]];

    let expected_men = vec![Some(1), Some(2), Some(0), Some(3)];
    let expected_women = vec![Some(2), Some(0), Some(1), Some(3)];

    test_case(men, women, expected_men, expected_women);

    let men = vec![vec![0, 1], vec![0]];
    let women = vec![vec![0, 1], vec![0]];

    let expected_men = vec![Some(0), None];
    let expected_women = vec![Some(0), None];

    test_case(men, women, expected_men, expected_women);
}

fn rank(prefs: &Vec<Vec<usize>>, from: usize, to: usize) -> Option<usize> {
    prefs[from].iter().position(|j| *j == to)
}

// Every pair that both sides admit, where each prefers the other to what it holds,
// is a blocking pair; a stable matching has none.
fn assert_stable(men: &Vec<Vec<usize>>, women: &Vec<Vec<usize>>) {
    let m = IndexMatcher(men.clone());
    let w = IndexMatcher(women.clone());
    let men_idx: Vec<usize> = (0..men.len()).collect();
    let women_idx: Vec<usize> = (0..women.len()).collect();
    let o = stable_matching(&men_idx, &women_idx, &m, &w);
    let mut partner_of_man = vec![None; men.len()];
    for (j, p) in o.partners.iter().enumerate() {
        if let Some(k) = p {
            assert!(partner_of_man[*k].is_none());
            partner_of_man[*k] = Some(j);
        }
    }
    for k in 0..men.len() {
        for j in 0..women.len() {
            let (Some(rk), Some(rj)) = (rank(men, k, j), rank(women, j, k)) else {
                continue;
            };
            let man_prefers = match partner_of_man[k] {
                None => true,
                Some(h) => rk < rank(men, k, h).unwrap(),
            };
            let woman_prefers = match o.partners[j] {
                None => true,
                Some(c) => rj < rank(women, j, c).unwrap(),
            };
            assert!(!(man_prefers && woman_prefers), "blocking pair ({}, {})", k, j);
        }
    }
    for k in &o.unmatched {
        assert!(partner_of_man[*k].is_none());
    }
}

#[test]
fn matching_has_no_blocking_pair_on_all_small_instances() {
    let perms = vec![
        vec![0, 1, 2],
        vec![0, 2, 1],
        vec![1, 0, 2],
        vec![1, 2, 0],
        vec![2, 0, 1],
        vec![2, 1, 0],
    ];
    for a in 0..6 {
        for b in 0..6 {
            for c in 0..6 {
                let men = vec![perms[a].clone(), perms[b].clone(), perms[c].clone()];
                let women = vec![perms[c].clone(), perms[a].clone(), perms[(a + b) % 6].clone()];
                assert_stable(&men, &women);
            }
        }
    }
    // Partial lists and lists of different sizes.
    assert_stable(&vec![vec![1], vec![0, 1], vec![]], &vec![vec![1, 0], vec![2, 0]]);
    assert_stable(&vec![vec![0], vec![0], vec![0]], &vec![vec![2, 1, 0]]);
}

#[test]
fn perfect_matches_are_taken_in_order() {
    struct Equal;
    impl Matcher for Equal {
        type Item = u32;
        type Target = u32;
        fn is_admissible(&self, _x: &u32, _y: &u32) -> bool {
            true
        }
        fn cmp_3way(&self, _from: &u32, _left: &u32, _right: &u32) -> Ordering {
            Ordering::Equal
        }
        fn is_perfect_match(&self, x: &u32, y: &u32) -> bool {
            x == y
        }
    }
    let (pairs, rest) = stable_marriage(vec![5, 7, 5], vec![5, 5, 7], &Equal, &Equal);
    assert_eq!(pairs, vec![(5, Some(5)), (5, Some(5)), (7, Some(7))]);
    assert!(rest.is_empty());
}

#[test]
fn unmatched_proposers_are_returned() {
    let men = IndexMatcher(vec![vec![0], vec![0]]);
    let women = IndexMatcher(vec![vec![1, 0]]);
    let (pairs, rest) = stable_marriage(vec![0usize, 1], vec![0usize], &men, &women);
    assert_eq!(pairs, vec![(0, Some(1))]);
    assert_eq!(rest, vec![0]);
}
