use asmdiff::engine::compare;
use asmdiff::engine::compare_parsed;
use asmdiff::engine::content_map;
use asmdiff::engine::calculate_levinstine_super_block;
use asmdiff::engine::generate_levinstine_map;
use asmdiff::engine::ComparisonResult;
use asmdiff::parser::parse;
use asmdiff::parser::SrcReference;
use asmdiff::parser::SuperBlock;
use asmdiff::vecmap::VecMap;

/// The change percentage as the surrounding shell computes it.
fn change_percent(distance: i128, block_length: i128) -> f64 {
    (distance as f64) / (block_length as f64) * 100.0
}

/// The sentinel tuple as the surrounding shell renders an unmatched key.
fn shell_tuple(row: &ComparisonResult) -> (i128, i128, f64, f64) {
    match &row.similarity {
        Some(p) => {
            let sim = (p.dot as f64) / ((p.norm1_sq as f64).sqrt() * (p.norm2_sq as f64).sqrt());
            (
                row.edit_distance,
                row.block_length,
                sim,
                change_percent(row.edit_distance, row.block_length),
            )
        }
        None => (row.edit_distance, row.block_length, -1.0, -1.0),
    }
}

fn content_map_of(text: &[u8], target: &[u8]) -> VecMap<Vec<u8>> {
    let parsed = parse(&text.to_vec(), &target.to_vec()).unwrap();
    content_map(&parsed)
}

#[test]
fn end_to_end_single_token_change() {
    let left = b"# f.c:1:\n mov eax, 1\n# f.c:2:\n add ebx, 2\n# f.c:3:\n mov ecx, 3\n";
    let right = b"# f.c:1:\n mov eax, 1\n# f.c:2:\n add ebx, 2\n# f.c:3:\n mev ecx, 3\n";
    let m1 = content_map_of(left, b"f.c");
    let m2 = content_map_of(right, b"f.c");
    let (rows, agg) = compare(&m1, &m2);
    assert_eq!(rows.len(), 3);
    let row = rows.iter().find(|r| r.key == b"f.c:3".to_vec()).unwrap();
    assert_eq!(row.edit_distance, 1);
    assert_eq!(row.block_length, 3);
    let cp = change_percent(row.edit_distance, row.block_length);
    assert!((cp - 33.33).abs() < 0.01);
    // The unchanged keys report distance zero.
    let row1 = rows.iter().find(|r| r.key == b"f.c:1".to_vec()).unwrap();
    assert_eq!(row1.edit_distance, 0);
    assert_eq!(row1.block_length, 3);
    // Totals run over matched keys.
    assert_eq!(agg.total_edit_distance, 1);
    assert_eq!(agg.total_reference_length, 9);
    let overall_change =
        (agg.total_edit_distance as f64) / (agg.total_reference_length as f64) * 100.0;
    assert!((overall_change - 11.11).abs() < 0.01);
}

#[test]
fn unmatched_keys_get_the_sentinel_tuple_and_no_accumulation() {
    let left = b"# f.c:1:\n mov eax, 1\n# f.c:2:\n add ebx, 2\n";
    let right = b"# f.c:1:\n mov eax, 1\n# f.c:9:\n sub ecx, 3\n";
    let m1 = content_map_of(left, b"f.c");
    let m2 = content_map_of(right, b"f.c");
    let (rows, agg) = compare(&m1, &m2);
    assert_eq!(rows.len(), 3);
    let only_left = rows.iter().find(|r| r.key == b"f.c:2".to_vec()).unwrap();
    assert_eq!(shell_tuple(only_left), (-1, -1, -1.0, -1.0));
    assert!(only_left.similarity.is_none());
    let only_right = rows.iter().find(|r| r.key == b"f.c:9".to_vec()).unwrap();
    assert_eq!(shell_tuple(only_right), (-1, -1, -1.0, -1.0));
    // Only the matched key contributes to the totals.
    assert_eq!(agg.total_edit_distance, 0);
    assert_eq!(agg.total_reference_length, 3);
}

#[test]
fn matched_identical_files_have_overall_similarity_one() {
    let text = b"# f.c:1:\n mov eax, 1\n# f.c:2:\n add ebx, 2\n";
    let m1 = content_map_of(text, b"f.c");
    let m2 = content_map_of(text, b"f.c");
    let (rows, agg) = compare(&m1, &m2);
    for row in &rows {
        assert_eq!(row.edit_distance, 0);
    }
    assert_eq!(agg.total_edit_distance, 0);
    assert_eq!(agg.overall.dot, agg.overall.norm1_sq);
    assert_eq!(agg.overall.dot, agg.overall.norm2_sq);
    assert!(agg.overall.norm1_sq > 0);
}

#[test]
fn matched_empty_contents_have_zero_block_length() {
    // Both blocks hold only filtered directives, so the compared contents
    // are empty: distance 0, block length 0, similarity undefined in-band.
    let text = b"# f.c:1:\n .cfi_startproc\n";
    let m1 = content_map_of(text, b"f.c");
    let m2 = content_map_of(text, b"f.c");
    let (rows, _) = compare(&m1, &m2);
    assert_eq!(rows.len(), 1);
    assert_eq!(rows[0].edit_distance, 0);
    assert_eq!(rows[0].block_length, 0);
    let p = rows[0].similarity.as_ref().unwrap();
    assert_eq!(p.norm1_sq, 0);
    assert_eq!(p.norm2_sq, 0);
}

#[test]
fn content_map_joins_tokens_with_line_feeds() {
    let text = b"# f.c:1:\n mov eax, 1\n add ebx, 2\n# lib.h:9:\n sub ecx, 3\n";
    let m = content_map_of(text, b"f.c");
    assert_eq!(m.len(), 2);
    assert_eq!(m.get(&b"f.c:1".to_vec()).unwrap(), &b"mov\nadd".to_vec());
    assert_eq!(m.get(&b"lib.h:9".to_vec()).unwrap(), &b"sub".to_vec());
}

fn src_ref(key: &[u8], lines: &[&[u8]]) -> SrcReference {
    SrcReference {
        foreign: false,
        src_ref: key.to_vec(),
        partial: false,
        content: lines.iter().map(|l| l.to_vec()).collect(),
    }
}

fn super_block(name: &[u8], refs: &[(&[u8], &[&[u8]])]) -> SuperBlock {
    let mut map = VecMap::new();
    for (k, lines) in refs {
        map.insert(k.to_vec(), src_ref(k, lines));
    }
    SuperBlock { block_name: name.to_vec(), src_references: map }
}

#[test]
fn super_block_distance_map_per_common_reference() {
    let sb1 = super_block(b"f.c:1", &[(b"f.c:1", &[b"mov", b"add"]), (b"lib.h:9", &[b"sub"])]);
    let sb2 = super_block(b"f.c:1", &[(b"f.c:1", &[b"mev", b"add"]), (b"other.h:1", &[b"xor"])]);
    let dm = calculate_levinstine_super_block(sb1, sb2);
    assert_eq!(dm.len(), 1);
    assert_eq!(dm.get(&b"f.c:1".to_vec()).unwrap(), &1);
}

#[test]
fn levinstine_map_unions_matched_super_blocks() {
    let mut m1 = VecMap::new();
    m1.insert(
        b"f.c:1".to_vec(),
        super_block(b"f.c:1", &[(b"f.c:1", &[b"mov"]), (b"lib.h:9", &[b"add"])]),
    );
    m1.insert(b"f.c:2".to_vec(), super_block(b"f.c:2", &[(b"f.c:2", &[b"sub"])]));
    m1.insert(b"f.c:7".to_vec(), super_block(b"f.c:7", &[(b"f.c:7", &[b"ret"])]));
    let mut m2 = VecMap::new();
    m2.insert(
        b"f.c:1".to_vec(),
        super_block(b"f.c:1", &[(b"f.c:1", &[b"mev"]), (b"lib.h:9", &[b"add"])]),
    );
    m2.insert(b"f.c:2".to_vec(), super_block(b"f.c:2", &[(b"f.c:2", &[b"sbb"])]));
    let dm = generate_levinstine_map(m1, m2);
    assert_eq!(dm.len(), 3);
    assert_eq!(dm.get(&b"f.c:1".to_vec()).unwrap(), &1);
    assert_eq!(dm.get(&b"lib.h:9".to_vec()).unwrap(), &0);
    assert_eq!(dm.get(&b"f.c:2".to_vec()).unwrap(), &1);
    assert!(dm.get(&b"f.c:7".to_vec()).is_none());
}

#[test]
fn compare_parsed_matches_explicit_flattening() {
    let left = b"# f.c:1:\n mov eax, 1\n# f.c:2:\n add ebx, 2\n".to_vec();
    let right = b"# f.c:1:\n mev eax, 1\n# f.c:2:\n add ebx, 2\n".to_vec();
    let p1 = parse(&left, &b"f.c".to_vec()).unwrap();
    let p2 = parse(&right, &b"f.c".to_vec()).unwrap();
    let (rows_a, agg_a) = compare_parsed(&p1, &p2);
    let (rows_b, agg_b) = compare(&content_map(&p1), &content_map(&p2));
    assert_eq!(rows_a.len(), rows_b.len());
    for (a, b) in rows_a.iter().zip(rows_b.iter()) {
        assert_eq!(a.key, b.key);
        assert_eq!(a.edit_distance, b.edit_distance);
        assert_eq!(a.block_length, b.block_length);
    }
    assert_eq!(agg_a.total_edit_distance, agg_b.total_edit_distance);
    assert_eq!(agg_a.total_edit_distance, 1);
    assert_eq!(agg_a.total_reference_length, agg_b.total_reference_length);
}

#[test]
fn result_order_is_side_one_then_extra_side_two_keys() {
    let left = b"# f.c:2:\n mov a\n# f.c:1:\n add b\n";
    let right = b"# f.c:1:\n add b\n# f.c:8:\n xor c\n";
    let m1 = content_map_of(left, b"f.c");
    let m2 = content_map_of(right, b"f.c");
    let (rows, _) = compare(&m1, &m2);
    let keys: Vec<Vec<u8>> = rows.iter().map(|r| r.key.clone()).collect();
    assert_eq!(
        keys,
        vec![b"f.c:2".to_vec(), b"f.c:1".to_vec(), b"f.c:8".to_vec()]
    );
}
