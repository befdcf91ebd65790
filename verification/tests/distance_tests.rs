use asmdiff::distance::calculate_levinstine;
use asmdiff::distance::optimized_levenshtein;

#[test]
fn distance_known_value() {
    assert_eq!(optimized_levenshtein(b"kitten", b"sitting"), 3);
    assert_eq!(optimized_levenshtein(b"flaw", b"lawn"), 2);
    assert_eq!(optimized_levenshtein(b"mov", b"add"), 3);
    assert_eq!(optimized_levenshtein(b"mov", b"mev"), 1);
}

#[test]
fn distance_self_is_zero() {
    assert_eq!(optimized_levenshtein(b"", b""), 0);
    assert_eq!(optimized_levenshtein(b"a", b"a"), 0);
    assert_eq!(optimized_levenshtein(b"mov eax, 1", b"mov eax, 1"), 0);
}

#[test]
fn distance_from_empty_is_length() {
    assert_eq!(optimized_levenshtein(b"", b"abc"), 3);
    assert_eq!(optimized_levenshtein(b"abcd", b""), 4);
}

#[test]
fn distance_is_symmetric() {
    let pairs: [(&[u8], &[u8]); 4] = [
        (b"kitten", b"sitting"),
        (b"", b"xyz"),
        (b"mov", b"add"),
        (b"aab", b"aba"),
    ];
    for (a, b) in pairs {
        assert_eq!(optimized_levenshtein(a, b), optimized_levenshtein(b, a));
    }
}

#[test]
fn distance_triangle_inequality() {
    let triples: [(&[u8], &[u8], &[u8]); 3] = [
        (b"kitten", b"sitting", b"sit"),
        (b"", b"ab", b"abcd"),
        (b"mov", b"add", b"sub"),
    ];
    for (a, b, c) in triples {
        let ac = optimized_levenshtein(a, c);
        let ab = optimized_levenshtein(a, b);
        let bc = optimized_levenshtein(b, c);
        assert!(ac <= ab + bc);
    }
}

#[test]
fn levinstine_sums_zipped_pairs() {
    let v1 = vec![b"abc".to_vec(), b"xy".to_vec()];
    let v2 = vec![b"abd".to_vec(), b"xy".to_vec(), b"zzz".to_vec()];
    // Pairs are zipped up to the shorter list: lev(abc, abd) + lev(xy, xy).
    assert_eq!(calculate_levinstine(v1, v2), 1);
}

#[test]
fn levinstine_empty_lists() {
    let none: Vec<Vec<u8>> = Vec::new();
    assert_eq!(calculate_levinstine(none.clone(), none), 0);
    let one = vec![b"abc".to_vec()];
    let empty: Vec<Vec<u8>> = Vec::new();
    assert_eq!(calculate_levinstine(one, empty), 0);
}
