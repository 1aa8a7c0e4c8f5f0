use fractal_board::coord::Coord;
use fractal_board::subsets::subsets_of_size;

fn named(set: Vec<Vec<&Coord>>) -> Vec<Vec<u8>> {
    set.iter()
        .map(|subset| subset.iter().map(|c| c.coord[0]).collect())
        .collect()
}

fn points(n: u8) -> Vec<Coord> {
    (0..n).map(|i| Coord::new(vec![i])).collect()
}

#[test]
fn subsets_leave_the_first_out_and_then_take_it() {
    let all = points(4);
    let pairs = subsets_of_size(all.iter().collect(), 2);
    assert_eq!(
        named(pairs),
        vec![
            vec![2, 3],
            vec![1, 3],
            vec![1, 2],
            vec![0, 3],
            vec![0, 2],
            vec![0, 1]
        ]
    );
}

#[test]
fn subsets_of_size_one_are_the_elements() {
    let all = points(3);
    assert_eq!(
        named(subsets_of_size(all.iter().collect(), 1)),
        vec![vec![2], vec![1], vec![0]]
    );
}

#[test]
fn the_only_subset_of_full_size_is_the_set() {
    let all = points(3);
    assert_eq!(named(subsets_of_size(all.iter().collect(), 3)), vec![vec![0, 1, 2]]);
    assert_eq!(named(subsets_of_size(Vec::new(), 0)), vec![Vec::<u8>::new()]);
}

#[test]
fn the_only_subset_of_size_zero_is_empty() {
    let all = points(3);
    assert_eq!(named(subsets_of_size(all.iter().collect(), 0)), vec![Vec::<u8>::new()]);
}

#[test]
fn there_is_no_subset_larger_than_the_set() {
    let all = points(2);
    assert!(subsets_of_size(all.iter().collect(), 3).is_empty());
    assert!(subsets_of_size(Vec::new(), 1).is_empty());
}

#[test]
fn nine_choose_three_is_eighty_four() {
    let all = points(9);
    let triples = named(subsets_of_size(all.iter().collect(), 3));
    assert_eq!(triples.len(), 84);
    for triple in &triples {
        assert_eq!(triple.len(), 3);
        assert!(triple[0] < triple[1] && triple[1] < triple[2]);
    }
    for i in 0..triples.len() {
        for j in 0..i {
            assert_ne!(triples[i], triples[j]);
        }
    }
    assert_eq!(named(subsets_of_size(all.iter().collect(), 2)).len(), 36);
    assert_eq!(named(subsets_of_size(all.iter().collect(), 8)).len(), 9);
}
