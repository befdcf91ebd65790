use asmdiff::parser::extract_file_name;
use asmdiff::parser::parse;
use asmdiff::parser::FileBlock;

#[test]
fn round_trip_two_super_blocks() {
    let text = b"# f.c:1:\n mov eax, 1\n add eax, 2\n# f.c:2:\n sub eax, 3\n".to_vec();
    let target = b"f.c".to_vec();
    let m = parse(&text, &target).unwrap();
    assert_eq!(m.len(), 2);
    let sb1 = m.get(&b"f.c:1".to_vec()).unwrap();
    assert_eq!(sb1.block_name, b"f.c:1".to_vec());
    assert_eq!(sb1.src_references.len(), 1);
    let r1 = sb1.src_references.get(&b"f.c:1".to_vec()).unwrap();
    assert_eq!(r1.content, vec![b"mov".to_vec(), b"add".to_vec()]);
    assert!(!r1.foreign);
    assert_eq!(r1.src_ref, b"f.c:1".to_vec());
    let sb2 = m.get(&b"f.c:2".to_vec()).unwrap();
    let r2 = sb2.src_references.get(&b"f.c:2".to_vec()).unwrap();
    assert_eq!(r2.content, vec![b"sub".to_vec()]);
}

#[test]
fn truncation_at_main_token() {
    let text = b"# f.c:1:\n mov eax, 1\nmain:\n add eax, 2\n# f.c:2:\n sub eax, 3\n".to_vec();
    let target = b"f.c".to_vec();
    let m = parse(&text, &target).unwrap();
    let sb1 = m.get(&b"f.c:1".to_vec()).unwrap();
    let r1 = sb1.src_references.get(&b"f.c:1".to_vec()).unwrap();
    // `main:` and everything after it are excluded from the block content.
    assert_eq!(r1.content, vec![b"mov".to_vec()]);
    // A later marker still opens a fresh block.
    let sb2 = m.get(&b"f.c:2".to_vec()).unwrap();
    let r2 = sb2.src_references.get(&b"f.c:2".to_vec()).unwrap();
    assert_eq!(r2.content, vec![b"sub".to_vec()]);
}

#[test]
fn foreign_blocks_group_under_open_super_block() {
    let text = b"# f.c:1:\n mov eax, 1\n# lib.h:9:\n add ebx, 2\n# f.c:2:\n sub ecx, 3\n".to_vec();
    let target = b"f.c".to_vec();
    let m = parse(&text, &target).unwrap();
    assert_eq!(m.len(), 2);
    let sb1 = m.get(&b"f.c:1".to_vec()).unwrap();
    assert_eq!(sb1.src_references.len(), 2);
    let own = sb1.src_references.get(&b"f.c:1".to_vec()).unwrap();
    assert!(!own.foreign);
    assert_eq!(own.content, vec![b"mov".to_vec()]);
    let foreign = sb1.src_references.get(&b"lib.h:9".to_vec()).unwrap();
    assert!(foreign.foreign);
    assert_eq!(foreign.content, vec![b"add".to_vec()]);
    let sb2 = m.get(&b"f.c:2".to_vec()).unwrap();
    assert_eq!(sb2.src_references.len(), 1);
    assert!(sb2.src_references.get(&b"lib.h:9".to_vec()).is_none());
}

#[test]
fn foreign_blocks_before_any_own_marker_are_unnamed() {
    let text = b"# lib.h:9:\n mov eax, 1\n".to_vec();
    let target = b"f.c".to_vec();
    let m = parse(&text, &target).unwrap();
    assert_eq!(m.len(), 1);
    let sb = m.get(&b"UnnamedSuperBlock".to_vec()).unwrap();
    assert_eq!(sb.block_name, b"UnnamedSuperBlock".to_vec());
    let r = sb.src_references.get(&b"lib.h:9".to_vec()).unwrap();
    assert!(r.foreign);
}

#[test]
fn empty_input_yields_empty_mapping() {
    let m = parse(&Vec::new(), &b"f.c".to_vec()).unwrap();
    assert_eq!(m.len(), 0);
}

#[test]
fn invalid_text_is_a_fatal_decode_error() {
    let text = vec![0xff, 0xfe, 0x23];
    assert!(parse(&text, &b"f.c".to_vec()).is_err());
    // A lone continuation byte in the middle of otherwise fine text.
    let text = b"# f.c:1:\n mov\n".iter().copied().chain([0x80u8]).collect::<Vec<u8>>();
    assert!(parse(&text, &b"f.c".to_vec()).is_err());
}

#[test]
fn multibyte_text_is_accepted() {
    let mut text = Vec::new();
    text.extend_from_slice(b"# f.c:1:\n mov eax, 1 ; ");
    text.extend_from_slice("grüße".as_bytes());
    text.push(b'\n');
    let m = parse(&text, &b"f.c".to_vec()).unwrap();
    assert_eq!(m.len(), 1);
}

#[test]
fn repeated_key_overwrites_earlier_super_block() {
    let text = b"# f.c:1:\n mov a\n# f.c:1:\n sub b\n".to_vec();
    let m = parse(&text, &b"f.c".to_vec()).unwrap();
    assert_eq!(m.len(), 1);
    let sb = m.get(&b"f.c:1".to_vec()).unwrap();
    let r = sb.src_references.get(&b"f.c:1".to_vec()).unwrap();
    assert_eq!(r.content, vec![b"sub".to_vec()]);
}

#[test]
fn filtered_tokens_directives_labels_and_locals() {
    let text = b"# f.c:1:\n\t.cfi_startproc\n.L2:\n_local:\n1:\n mov eax, 1\n".to_vec();
    let m = parse(&text, &b"f.c".to_vec()).unwrap();
    let r = m
        .get(&b"f.c:1".to_vec())
        .unwrap()
        .src_references
        .get(&b"f.c:1".to_vec())
        .unwrap();
    assert_eq!(r.content, vec![b"mov".to_vec()]);
}

#[test]
fn marker_grammar_edges() {
    // No whitespace after `#` is fine; a path may hold `/`, `.`, `+`, `-`.
    let text = b"#dir/file-name.c++:42: trailing words\n mov eax, 1\n".to_vec();
    let m = parse(&text, &b"file-name.c++".to_vec()).unwrap();
    assert!(m.get(&b"dir/file-name.c++:42".to_vec()).is_some());
    // Missing trailing colon: not a marker, the line is ordinary content.
    let text = b"# f.c:1:\n# f.c:2\n mov eax, 1\n".to_vec();
    let m = parse(&text, &b"f.c".to_vec()).unwrap();
    assert_eq!(m.len(), 1);
    // Missing digits: not a marker.
    let text = b"# f.c::\n mov eax, 1\n".to_vec();
    let m = parse(&text, &b"f.c".to_vec()).unwrap();
    assert_eq!(m.len(), 0);
}

#[test]
fn partial_flag_set_by_j_in_raw_lines() {
    let text = b"# f.c:1:\n jmp .L2\n# f.c:2:\n mov eax, 1\n".to_vec();
    let m = parse(&text, &b"f.c".to_vec()).unwrap();
    let r1 = m
        .get(&b"f.c:1".to_vec())
        .unwrap()
        .src_references
        .get(&b"f.c:1".to_vec())
        .unwrap();
    assert!(r1.partial);
    let r2 = m
        .get(&b"f.c:2".to_vec())
        .unwrap()
        .src_references
        .get(&b"f.c:2".to_vec())
        .unwrap();
    assert!(!r2.partial);
}

#[test]
fn create_src_reference_block_expands_tabs_and_flags_j() {
    let content = vec![b"mov\teax, 1".to_vec(), b"jne .L3".to_vec()];
    let r = FileBlock::create_src_reference_block(content, b"f.c:7".to_vec(), true);
    assert_eq!(r.content, vec![b"mov  eax, 1".to_vec(), b"jne .L3".to_vec()]);
    assert!(r.partial);
    assert!(r.foreign);
    assert_eq!(r.src_ref, b"f.c:7".to_vec());

    let quiet = FileBlock::create_src_reference_block(vec![b"mov eax".to_vec()], b"f.c:8".to_vec(), false);
    assert!(!quiet.partial);
    assert!(!quiet.foreign);
}

#[test]
fn create_super_block_uses_sentinel_when_unnamed() {
    let refs = asmdiff::vecmap::VecMap::new();
    let sb = FileBlock::create_super_block(refs, None).unwrap();
    assert_eq!(sb.block_name, b"UnnamedSuperBlock".to_vec());
    let refs = asmdiff::vecmap::VecMap::new();
    let sb = FileBlock::create_super_block(refs, Some(b"f.c:3".to_vec())).unwrap();
    assert_eq!(sb.block_name, b"f.c:3".to_vec());
}

#[test]
fn extract_file_name_finds_leftmost_directive() {
    let text = b"\t.file\t\"prog.c\"\n\t.text\n".to_vec();
    assert_eq!(extract_file_name(&text), Some(b"prog.c".to_vec()));
    let text = b"; nothing here\n".to_vec();
    assert_eq!(extract_file_name(&text), None);
    // The first well-formed directive wins.
    let text = b".file \"a.c\"\n.file \"b.c\"\n".to_vec();
    assert_eq!(extract_file_name(&text), Some(b"a.c".to_vec()));
    // An empty name or a missing quote does not match; scanning goes on.
    let text = b".file \"\"\n.file \"ok.c\"\n".to_vec();
    assert_eq!(extract_file_name(&text), Some(b"ok.c".to_vec()));
    // Whitespace between `.file` and the name is required.
    let text = b".file\"x.c\"\n".to_vec();
    assert_eq!(extract_file_name(&text), None);
}

#[test]
fn get_file_name_matches_free_function() {
    let fb = FileBlock::new(b"/tmp/listing.s".to_vec());
    let text = b" .file \"unit.c\"\n".to_vec();
    assert_eq!(fb.get_file_name(&text), Some(b"unit.c".to_vec()));
}

#[test]
fn generate_hashmap_parses_like_parse() {
    let fb = FileBlock::new(b"listing.s".to_vec());
    let text = b"# f.c:1:\n mov eax, 1\n".to_vec();
    let m = fb.generate_hashmap(&text, &b"f.c".to_vec()).unwrap();
    assert_eq!(m.len(), 1);
    assert!(m.get(&b"f.c:1".to_vec()).is_some());
}

#[test]
fn block_at_end_of_input_is_kept() {
    // The final super-block is finalized at end of input even with no
    // marker after it.
    let text = b"# f.c:5:\n mov eax, 1".to_vec();
    let m = parse(&text, &b"f.c".to_vec()).unwrap();
    let r = m
        .get(&b"f.c:5".to_vec())
        .unwrap()
        .src_references
        .get(&b"f.c:5".to_vec())
        .unwrap();
    assert_eq!(r.content, vec![b"mov".to_vec()]);
}

#[test]
fn crlf_line_endings_are_accepted() {
    let text = b"# f.c:1:\r\n mov eax, 1\r\n add ebx, 2\r\n".to_vec();
    let m = parse(&text, &b"f.c".to_vec()).unwrap();
    let r = m
        .get(&b"f.c:1".to_vec())
        .unwrap()
        .src_references
        .get(&b"f.c:1".to_vec())
        .unwrap();
    assert_eq!(r.content, vec![b"mov".to_vec(), b"add".to_vec()]);
}

#[test]
fn partial_flag_sees_raw_lines_after_truncation() {
    // `main:` truncates the content, but the raw buffer of the block still
    // runs to the next marker, so a `j` after the cut sets the flag.
    let text = b"# f.c:1:\n mov eax, 1\nmain:\n jmp .L2\n".to_vec();
    let m = parse(&text, &b"f.c".to_vec()).unwrap();
    let r = m
        .get(&b"f.c:1".to_vec())
        .unwrap()
        .src_references
        .get(&b"f.c:1".to_vec())
        .unwrap();
    assert_eq!(r.content, vec![b"mov".to_vec()]);
    assert!(r.partial);
}

#[test]
fn blank_lines_keep_an_empty_token() {
    let text = b"# f.c:1:\n mov eax, 1\n\n# f.c:2:\n sub eax, 1\n".to_vec();
    let m = parse(&text, &b"f.c".to_vec()).unwrap();
    let r = m
        .get(&b"f.c:1".to_vec())
        .unwrap()
        .src_references
        .get(&b"f.c:1".to_vec())
        .unwrap();
    assert_eq!(r.content, vec![b"mov".to_vec(), b"".to_vec()]);
}
