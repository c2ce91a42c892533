use graphmat::levenshtein::{levenshtein, levenshtein_matrix, Edit};

fn labels(s: &[u8]) -> Vec<usize> {
    s.iter().map(|&c| c as usize).collect()
}

fn check_distance(s: &[u8], t: &[u8], expected: usize) {
    let (a, b) = (labels(s), labels(t));
    assert_eq!(levenshtein(&a, &b), expected);
    let mat = levenshtein_matrix(&a, &b);
    assert_eq!(mat.distance(), expected);
    let mut tmp = a.clone();
    mat.edits().apply(&mut tmp, &b);
    assert_eq!(tmp, b);
}

#[test]
fn test_levenshtein_kitten_sitting() {
    check_distance(b"kitten", b"sitting", 3);
}

#[test]
fn test_levenshtein_saturday_sunday() {
    check_distance(b"Saturday", b"Sunday", 3);
}

#[test]
fn test_levenshtein_mariah_leonard() {
    check_distance(b"Mariah Carey", b"Leonard Cohen", 9);
}

#[test]
fn test_levenshtein_kitteenns() {
    check_distance(b"kitteenns", b"kiteeenss", 2);
}

#[test]
fn test_levenshtein_empty_sides() {
    check_distance(b"", b"abc", 3);
    check_distance(b"abc", b"", 3);
    check_distance(b"", b"", 0);
}

#[test]
fn test_matrix_cells() {
    let mat = levenshtein_matrix(&labels(b"ab"), &labels(b"b"));
    assert_eq!(mat.get(0, 0), 0);
    assert_eq!(mat.get(2, 0), 2);
    assert_eq!(mat.get(0, 1), 1);
    assert_eq!(mat.get(1, 1), 1);
    assert_eq!(mat.get(2, 1), 1);
}

#[test]
fn test_edits_with_indices() {
    let mat = levenshtein_matrix(&labels(b"ab"), &labels(b"b"));
    let es = mat.edits().with_indices();
    assert_eq!(es, vec![(1, Edit::Noop), (0, Edit::Delete)]);
    let mat = levenshtein_matrix(&labels(b"a"), &labels(b"ba"));
    let es = mat.edits().with_indices();
    assert_eq!(es, vec![(0, Edit::Noop), (0, Edit::Insert(0))]);
    let mat = levenshtein_matrix(&labels(b"x"), &labels(b"y"));
    assert_eq!(mat.edits().with_indices(), vec![(0, Edit::Substitute(0))]);
}

#[test]
fn test_edit_apply() {
    let rhs = vec![7, 8];
    let mut v = vec![1, 2, 3];
    Edit::Substitute(1).apply(0, &mut v, &rhs);
    assert_eq!(v, vec![8, 2, 3]);
    Edit::Delete.apply(1, &mut v, &rhs);
    assert_eq!(v, vec![8, 3]);
    Edit::Insert(0).apply(2, &mut v, &rhs);
    assert_eq!(v, vec![8, 3, 7]);
    Edit::Noop.apply(0, &mut v, &rhs);
    assert_eq!(v, vec![8, 3, 7]);
}

#[test]
fn test_matrix_new_borders() {
    let mat = graphmat::levenshtein::LevenshteinMatrix::new(2, 3);
    assert_eq!(mat.get(2, 0), 2);
    assert_eq!(mat.get(0, 3), 3);
}
