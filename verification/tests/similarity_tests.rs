use asmdiff::similarity::cosine_parts;
use asmdiff::similarity::dot_bytes;
use asmdiff::similarity::pad_strings;
use asmdiff::similarity::pad_vector;

/// The similarity value as the surrounding shell computes it from the exact
/// integer ingredients.
fn cosine_of(dot: u128, n1: u128, n2: u128) -> f64 {
    (dot as f64) / ((n1 as f64).sqrt() * (n2 as f64).sqrt())
}

#[test]
fn padding_extends_shorter_with_zero_bytes() {
    let (a, b) = pad_vector(vec![1, 2, 3], vec![4]);
    assert_eq!(a, vec![1, 2, 3]);
    assert_eq!(b, vec![4, 0, 0]);
    let (a, b) = pad_vector(vec![9], vec![7, 8]);
    assert_eq!(a, vec![9, 0]);
    assert_eq!(b, vec![7, 8]);
}

#[test]
fn padding_equal_lengths_is_identity() {
    let (a, b) = pad_vector(vec![1, 2], vec![3, 4]);
    assert_eq!(a, vec![1, 2]);
    assert_eq!(b, vec![3, 4]);
    let (a, b) = pad_vector(Vec::new(), Vec::new());
    assert_eq!(a, Vec::<u8>::new());
    assert_eq!(b, Vec::<u8>::new());
    let (s1, s2) = pad_strings(&b"mov".to_vec(), &b"add".to_vec());
    assert_eq!(s1, b"mov".to_vec());
    assert_eq!(s2, b"add".to_vec());
}

#[test]
fn pad_strings_pads_bytes() {
    let (s1, s2) = pad_strings(&b"mov eax".to_vec(), &b"mov".to_vec());
    assert_eq!(s1, b"mov eax".to_vec());
    assert_eq!(s2, b"mov\0\0\0\0".to_vec());
}

#[test]
fn dot_product_exact_values() {
    // 1*4 + 2*5 + 3*6 = 32; the shorter vector is conceptually zero-padded.
    assert_eq!(dot_bytes(&vec![1, 2, 3], &vec![4, 5, 6]), 32);
    assert_eq!(dot_bytes(&vec![1, 2, 3], &vec![4, 5]), 14);
    assert_eq!(dot_bytes(&Vec::new(), &vec![4, 5]), 0);
}

#[test]
fn cosine_parts_exact_values() {
    // "ab": 97^2 + 98^2 = 19013.
    let p = cosine_parts(&b"ab".to_vec(), &b"ab".to_vec());
    assert_eq!(p.dot, 19013);
    assert_eq!(p.norm1_sq, 19013);
    assert_eq!(p.norm2_sq, 19013);
}

#[test]
fn similarity_of_nonempty_with_itself_is_one() {
    for text in [&b"a"[..], b"mov eax, 1", b"some longer assembly text"] {
        let v = text.to_vec();
        let p = cosine_parts(&v, &v);
        assert_eq!(p.dot, p.norm1_sq);
        assert_eq!(p.dot, p.norm2_sq);
        assert!(p.norm1_sq > 0);
        let sim = cosine_of(p.dot, p.norm1_sq, p.norm2_sq);
        assert!((sim - 1.0).abs() < 1e-12);
    }
}

#[test]
fn similarity_of_empty_contents_is_undefined() {
    let p = cosine_parts(&Vec::new(), &Vec::new());
    assert_eq!(p.dot, 0);
    assert_eq!(p.norm1_sq, 0);
    assert_eq!(p.norm2_sq, 0);
    // A zero norm means the ratio is undefined; the shell must render it
    // as such instead of a number.
    assert!(!cosine_of(p.dot, p.norm1_sq, p.norm2_sq).is_finite());
}
