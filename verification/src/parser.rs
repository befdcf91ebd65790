//! Segmentation of an annotated assembly listing: data types for instruction
//! blocks grouped under the source lines of a target file, the debug-marker
//! grammar `# path:line:`, and the parser that builds the grouped mapping.

use vstd::prelude::*;

use crate::byteops::clone_bytes;
use crate::byteops::contains_byte;
use crate::byteops::contains_sub;
use crate::byteops::is_substring;
use crate::byteops::push_bytes;
use crate::byteops::views_of;
use crate::text::ByteClass;
use crate::text::first_token;
use crate::text::first_token_of;
use crate::text::is_digit;
use crate::text::is_valid_utf8;
use crate::text::run_from;
use crate::text::run_len;
use crate::text::spec_lines;
use crate::text::split_lines;
use crate::text::copy_range;
use crate::text::validate_utf8;
use crate::vecmap::VecMap;
use crate::vecmap::entries_insert;

verus! {

/// Mathematical model of one instruction block.
pub struct SrcRefModel {
    /// The block's source file is not the target file.
    pub foreign: bool,
    /// The `path:line` key of the block.
    pub src_ref: Seq<u8>,
    /// Some raw line of the block contained the byte `j`.
    pub partial: bool,
    /// The retained instruction tokens, in listing order.
    pub content: Seq<Seq<u8>>,
}

/// Mathematical model of a super-block: its owning key and the blocks
/// accumulated under it, keyed by their own `path:line` keys.
pub struct SuperBlockModel {
    pub block_name: Seq<u8>,
    pub src_references: Seq<(Seq<u8>, SrcRefModel)>,
}

/// One instruction block attributed to a single `path:line` source location.
pub struct SrcReference {
    /// True when the block's source file is not the target file.
    pub foreign: bool,
    /// The `path:line` key of the block.
    pub src_ref: Vec<u8>,
    /// True when some raw line of the block contained the byte `j`
    /// (a crude proxy for a jump instruction).
    pub partial: bool,
    /// The retained instruction tokens, in listing order.
    pub content: Vec<Vec<u8>>,
}

impl View for SrcReference {
    type V = SrcRefModel;

    open spec fn view(&self) -> SrcRefModel {
        SrcRefModel {
            foreign: self.foreign,
            src_ref: self.src_ref@,
            partial: self.partial,
            content: views_of(self.content@),
        }
    }
}

/// All instruction blocks (own-file and foreign) emitted contiguously under
/// one target-file source line.
pub struct SuperBlock {
    /// The owning key, or the sentinel name when no own-file marker was open.
    pub block_name: Vec<u8>,
    /// The accumulated blocks, keyed by their own `path:line` keys.
    pub src_references: VecMap<SrcReference>,
}

impl View for SuperBlock {
    type V = SuperBlockModel;

    open spec fn view(&self) -> SuperBlockModel {
        SuperBlockModel { block_name: self.block_name@, src_references: self.src_references@ }
    }
}

/// The input bytes are not well-formed text; the whole parse is rejected.
#[derive(Clone, Copy, PartialEq, Eq, Structural, Debug)]
pub struct DecodeError;

/// The sentinel super-block name used when foreign blocks accumulate before
/// any own-file marker has been seen: `UnnamedSuperBlock`.
pub open spec fn unnamed_name() -> Seq<u8> {
    seq![
        0x55u8,
        0x6e,
        0x6e,
        0x61,
        0x6d,
        0x65,
        0x64,
        0x53,
        0x75,
        0x70,
        0x65,
        0x72,
        0x42,
        0x6c,
        0x6f,
        0x63,
        0x6b,
    ]
}

/// The sentinel super-block name, as bytes.
pub fn unnamed_super_block_name() -> (r: Vec<u8>)
    ensures
        r@ == unnamed_name(),
{
    let mut r: Vec<u8> = Vec::new();
    r.push(0x55);
    r.push(0x6e);
    r.push(0x6e);
    r.push(0x61);
    r.push(0x6d);
    r.push(0x65);
    r.push(0x64);
    r.push(0x53);
    r.push(0x75);
    r.push(0x70);
    r.push(0x65);
    r.push(0x72);
    r.push(0x42);
    r.push(0x6c);
    r.push(0x6f);
    r.push(0x63);
    r.push(0x6b);
    proof {
        assert(r@ =~= unnamed_name());
    }
    r
}

/// The token that truncates a block: `main:`.
pub open spec fn main_token() -> Seq<u8> {
    seq![0x6du8, 0x61, 0x69, 0x6e, 0x3a]
}

/// The truncating token `main:`, as bytes.
pub fn main_token_bytes() -> (r: Vec<u8>)
    ensures
        r@ == main_token(),
{
    let mut r: Vec<u8> = Vec::new();
    r.push(0x6d);
    r.push(0x61);
    r.push(0x69);
    r.push(0x6e);
    r.push(0x3a);
    proof {
        assert(r@ =~= main_token());
    }
    r
}

/// A debug-marker line: `#`, optional whitespace, a nonempty run of path
/// characters, `:`, a nonempty run of digits, `:`, anything after. Yields
/// the path and the digit run.
pub open spec fn spec_marker(line: Seq<u8>) -> Option<(Seq<u8>, Seq<u8>)> {
    if line.len() == 0 || line[0] != 0x23 {
        None
    } else {
        let w = run_len(ByteClass::Ws, line.skip(1)) as int;
        let ps = 1 + w;
        let p = run_len(ByteClass::PathChar, line.skip(ps)) as int;
        let cs = ps + p;
        if p == 0 || cs >= line.len() || line[cs] != 0x3a {
            None
        } else {
            let ds = cs + 1;
            let d = run_len(ByteClass::Digit, line.skip(ds)) as int;
            let de = ds + d;
            if d == 0 || de >= line.len() || line[de] != 0x3a {
                None
            } else {
                Some((line.subrange(ps, cs), line.subrange(ds, de)))
            }
        }
    }
}

/// Whether a line is a debug marker.
pub open spec fn is_marker(line: Seq<u8>) -> bool {
    spec_marker(line) is Some
}

/// Matches a line against the debug-marker grammar and extracts the path
/// and the line-number digits.
pub fn marker_of_line(line: &Vec<u8>) -> (r: Option<(Vec<u8>, Vec<u8>)>)
    ensures
        (r is Some) == is_marker(line@),
        r matches Some(pd) ==> spec_marker(line@) == Some((pd.0@, pd.1@)),
{
    let n = line.len();
    if n == 0 || line[0] != 0x23 {
        return None;
    }
    let w = run_from(line, 1, ByteClass::Ws);
    let ps = 1 + w;
    let p = run_from(line, ps, ByteClass::PathChar);
    let cs = ps + p;
    if p == 0 || cs >= n || line[cs] != 0x3a {
        return None;
    }
    let ds = cs + 1;
    let d = run_from(line, ds, ByteClass::Digit);
    let de = ds + d;
    if d == 0 || de >= n || line[de] != 0x3a {
        return None;
    }
    let path = copy_range(line, ps, cs);
    let digits = copy_range(line, ds, de);
    Some((path, digits))
}

/// The `path:line` key of a marker.
pub open spec fn spec_key(path: Seq<u8>, digits: Seq<u8>) -> Seq<u8> {
    path + seq![0x3au8] + digits
}

/// Builds the `path:line` key of a marker.
pub fn make_key(path: &Vec<u8>, digits: &Vec<u8>) -> (r: Vec<u8>)
    ensures
        r@ == spec_key(path@, digits@),
{
    let mut r = clone_bytes(path);
    r.push(0x3a);
    push_bytes(&mut r, digits);
    proof {
        assert(r@ =~= spec_key(path@, digits@));
    }
    r
}

/// A token that is filtered out: directives (`.`), numeric labels and
/// local symbols (`_`).
pub open spec fn drops_token(tok: Seq<u8>) -> bool {
    tok.len() > 0 && (tok[0] == 0x2e || is_digit(tok[0]) || tok[0] == 0x5f)
}

/// The retained instruction tokens of a raw block: the first
/// whitespace-delimited token of each line, with directive, numeric and
/// local-symbol tokens dropped, truncated at the first token equal to
/// `main:`.
pub open spec fn filter_tokens(lines: Seq<Seq<u8>>) -> Seq<Seq<u8>>
    decreases lines.len(),
{
    if lines.len() == 0 {
        seq![]
    } else {
        let tok = first_token(lines[0]);
        if tok == main_token() {
            seq![]
        } else if drops_token(tok) {
            filter_tokens(lines.drop_first())
        } else {
            seq![tok] + filter_tokens(lines.drop_first())
        }
    }
}

/// Extracts the retained instruction tokens of a raw block.
pub fn filter_block_tokens(raw: &Vec<Vec<u8>>) -> (r: Vec<Vec<u8>>)
    ensures
        views_of(r@) == filter_tokens(views_of(raw@)),
{
    let main_tok = main_token_bytes();
    let mut out: Vec<Vec<u8>> = Vec::new();
    let n = raw.len();
    let ghost all = views_of(raw@);
    let mut i: usize = 0;
    proof {
        assert(all.skip(0) =~= all);
        assert(views_of(out@) =~= Seq::<Seq<u8>>::empty());
    }
    while i < n
        invariant
            n == raw@.len(),
            i <= n,
            all == views_of(raw@),
            main_tok@ == main_token(),
            filter_tokens(all) == views_of(out@) + filter_tokens(all.skip(i as int)),
        decreases n - i,
    {
        let ghost rest = all.skip(i as int);
        let ghost prev = out@;
        proof {
            assert(rest[0] == all[i as int]);
            assert(rest.drop_first() =~= all.skip(i + 1));
        }
        let tok = first_token_of(&raw[i]);
        if crate::byteops::bytes_eq(&tok, &main_tok) {
            proof {
                assert(filter_tokens(rest) =~= Seq::<Seq<u8>>::empty());
                assert(views_of(out@) + filter_tokens(rest) =~= views_of(out@));
            }
            return out;
        }
        let dropped = tok.len() > 0 && (tok[0] == 0x2e || (0x30 <= tok[0] && tok[0] <= 0x39)
            || tok[0] == 0x5f);
        if !dropped {
            out.push(tok);
            proof {
                assert(views_of(out@) =~= views_of(prev) + seq![first_token(all[i as int])]);
                assert(views_of(prev) + (seq![first_token(all[i as int])] + filter_tokens(
                    all.skip(i + 1),
                )) =~= views_of(out@) + filter_tokens(all.skip(i + 1)));
            }
        }
        i = i + 1;
    }
    proof {
        assert(all.skip(n as int) =~= Seq::<Seq<u8>>::empty());
        assert(views_of(out@) + filter_tokens(all.skip(n as int)) =~= views_of(out@));
    }
    out
}

/// Whether some raw line of a block contains the byte `j`.
pub open spec fn has_j(lines: Seq<Seq<u8>>) -> bool {
    exists|i: int| 0 <= i < lines.len() && (#[trigger] lines[i]).contains(0x6a)
}

/// Checks whether some raw line contains the byte `j`.
pub fn lines_contain_j(raw: &Vec<Vec<u8>>) -> (r: bool)
    ensures
        r == has_j(views_of(raw@)),
{
    let n = raw.len();
    let mut i: usize = 0;
    while i < n
        invariant
            n == raw@.len(),
            i <= n,
            forall|k: int| 0 <= k < i ==> !(#[trigger] views_of(raw@)[k]).contains(0x6a),
        decreases n - i,
    {
        if contains_byte(&raw[i], 0x6a) {
            proof {
                assert(views_of(raw@)[i as int].contains(0x6a));
            }
            return true;
        }
        proof {
            assert(views_of(raw@)[i as int] == raw@[i as int]@);
        }
        i = i + 1;
    }
    false
}

impl FileBlock {
    /// A fresh file block for the listing at `file_path`, with no parsed
    /// super-blocks yet.
    pub fn new(file_path: Vec<u8>) -> (r: Self)
        ensures
            r@.file_path == file_path@,
            r@.blocks == Seq::<SuperBlockModel>::empty(),
    {
        let r = FileBlock { file_path, blocks: Vec::new() };
        proof {
            assert(r@.blocks =~= Seq::<SuperBlockModel>::empty());
        }
        r
    }

    /// Builds one instruction block: the content lines with tabs expanded to
    /// two spaces, flagged partial when any line contains the byte `j`.
    pub fn create_src_reference_block(content: Vec<Vec<u8>>, src_ref: Vec<u8>, is_foreign_ref: bool) -> (r:
        SrcReference)
        ensures
            r@.foreign == is_foreign_ref,
            r@.src_ref == src_ref@,
            r@.partial == has_j(views_of(content@)),
            r@.content == views_of(content@).map_values(|l: Seq<u8>| crate::text::tab2sp(l)),
    {
        let mut is_partial = false;
        let mut cleaned: Vec<Vec<u8>> = Vec::new();
        let n = content.len();
        let mut i: usize = 0;
        while i < n
            invariant
                n == content@.len(),
                i <= n,
                cleaned@.len() == i,
                forall|k: int|
                    0 <= k < i ==> views_of(cleaned@)[k] == crate::text::tab2sp(
                        #[trigger] views_of(content@)[k],
                    ),
                is_partial == exists|k: int|
                    0 <= k < i && (#[trigger] views_of(content@)[k]).contains(0x6a),
            decreases n - i,
        {
            if contains_byte(&content[i], 0x6a) {
                proof {
                    assert(views_of(content@)[i as int].contains(0x6a));
                }
                is_partial = true;
            }
            cleaned.push(crate::text::replace_tabs(&content[i]));
            proof {
                assert(views_of(cleaned@)[i as int] == crate::text::tab2sp(
                    views_of(content@)[i as int],
                ));
            }
            i = i + 1;
        }
        let r = SrcReference { foreign: is_foreign_ref, partial: is_partial, src_ref, content: cleaned };
        proof {
            assert(r@.content =~= views_of(content@).map_values(|l: Seq<u8>| crate::text::tab2sp(l)));
        }
        r
    }

    /// Wraps an accumulated reference set into a super-block, under the
    /// given name or the sentinel name when none is given.
    pub fn create_super_block(content: VecMap<SrcReference>, block_name: Option<Vec<u8>>) -> (r:
        Option<SuperBlock>)
        ensures
            r is Some,
            r matches Some(sb) ==> sb@.src_references == content@ && sb@.block_name == (
            match block_name {
                Some(n) => n@,
                None => unnamed_name(),
            }),
    {
        match block_name {
            Some(block_name) => Some(SuperBlock { block_name, src_references: content }),
            None => Some(
                SuperBlock { block_name: unnamed_super_block_name(), src_references: content },
            ),
        }
    }

    /// Extracts the target file name from a listing, as
    /// [`extract_file_name`] does.
    pub fn get_file_name(&self, file_content: &Vec<u8>) -> (r: Option<Vec<u8>>)
        ensures
            (r is Some) == (spec_extract_file_name(file_content@) is Some),
            r matches Some(v) ==> spec_extract_file_name(file_content@) == Some(v@),
    {
        extract_file_name(file_content)
    }

    /// Parses a listing into the grouped mapping, as [`parse`] does.
    pub fn generate_hashmap(&self, file_content: &Vec<u8>, filename: &Vec<u8>) -> (r: Result<
        VecMap<SuperBlock>,
        DecodeError,
    >)
        ensures
            (r is Ok) == is_valid_utf8(file_content@),
            r matches Ok(m) ==> m@ == spec_parse(file_content@, filename@) && m.wf(),
    {
        parse(file_content, filename)
    }
}

/// The index of the first marker line at or after `from`, or `lines.len()`.
pub open spec fn next_marker(lines: Seq<Seq<u8>>, from: int) -> int
    decreases lines.len() - from,
{
    if from >= lines.len() {
        lines.len() as int
    } else if is_marker(lines[from]) {
        from
    } else {
        next_marker(lines, from + 1)
    }
}

/// `next_marker` yields the least marker position at or after `from`.
pub proof fn lemma_next_marker(lines: Seq<Seq<u8>>, from: int)
    requires
        from <= lines.len(),
    ensures
        from <= next_marker(lines, from) <= lines.len(),
        forall|k: int| from <= k < next_marker(lines, from) ==> !is_marker(#[trigger] lines[k]),
        next_marker(lines, from) < lines.len() ==> is_marker(lines[next_marker(lines, from)]),
    decreases lines.len() - from,
{
    if from >= lines.len() {
    } else if is_marker(lines[from]) {
    } else {
        lemma_next_marker(lines, from + 1);
    }
}

/// A position that is no marker before it and a marker (or the end) at it
/// determines `next_marker` exactly.
pub proof fn lemma_next_marker_at(lines: Seq<Seq<u8>>, from: int, m: int)
    requires
        from <= m <= lines.len(),
        forall|k: int| from <= k < m ==> !is_marker(#[trigger] lines[k]),
        m < lines.len() ==> is_marker(lines[m]),
    ensures
        next_marker(lines, from) == m,
    decreases m - from,
{
    if from == m {
    } else {
        lemma_next_marker_at(lines, from + 1, m);
    }
}

/// The name a closing super-block is filed under: the open key, or the
/// sentinel name when none was ever opened.
pub open spec fn close_name(open: Option<Seq<u8>>) -> Seq<u8> {
    match open {
        Some(k) => k,
        None => unnamed_name(),
    }
}

/// One forward scan over the lines from position `i`, with `open` the key
/// of the currently open super-block, `acc` its accumulated references and
/// `out` the super-blocks already closed. Each marker opens a block of the
/// lines up to the next marker; an own-file marker (target a substring of
/// the path) closes the open super-block and opens a new one; at the end of
/// input the open super-block is closed.
pub open spec fn parse_from(
    lines: Seq<Seq<u8>>,
    target: Seq<u8>,
    i: int,
    open: Option<Seq<u8>>,
    acc: Seq<(Seq<u8>, SrcRefModel)>,
    out: Seq<(Seq<u8>, SuperBlockModel)>,
) -> Seq<(Seq<u8>, SuperBlockModel)>
    decreases lines.len() - i,
    via parse_from_dec
{
    if i >= lines.len() {
        if open is Some || acc.len() > 0 {
            entries_insert(
                out,
                close_name(open),
                SuperBlockModel { block_name: close_name(open), src_references: acc },
            )
        } else {
            out
        }
    } else if !is_marker(lines[i]) {
        parse_from(lines, target, i + 1, open, acc, out)
    } else {
        match spec_marker(lines[i]) {
            None => out,
            Some(pd) => {
                let key = spec_key(pd.0, pd.1);
                let j = next_marker(lines, i + 1);
                let raw = lines.subrange(i + 1, j);
                let own = is_substring(target, pd.0);
                let m = SrcRefModel {
                    foreign: !own,
                    src_ref: key,
                    partial: has_j(raw),
                    content: filter_tokens(raw),
                };
                if own {
                    let out2 = if open is Some || acc.len() > 0 {
                        entries_insert(
                            out,
                            close_name(open),
                            SuperBlockModel { block_name: close_name(open), src_references: acc },
                        )
                    } else {
                        out
                    };
                    parse_from(lines, target, j, Some(key), seq![(key, m)], out2)
                } else {
                    parse_from(lines, target, j, open, entries_insert(acc, key, m), out)
                }
            },
        }
    }
}

#[via_fn]
proof fn parse_from_dec(
    lines: Seq<Seq<u8>>,
    target: Seq<u8>,
    i: int,
    open: Option<Seq<u8>>,
    acc: Seq<(Seq<u8>, SrcRefModel)>,
    out: Seq<(Seq<u8>, SuperBlockModel)>,
) {
    if i < lines.len() {
        lemma_next_marker(lines, i + 1);
    }
}

/// The grouped mapping parsed from `text` for the given target file: each
/// entry keys a super-block by its owning `path:line` key (or the sentinel
/// name), in order of first appearance.
pub open spec fn spec_parse(text: Seq<u8>, target: Seq<u8>) -> Seq<(Seq<u8>, SuperBlockModel)> {
    parse_from(
        spec_lines(text),
        target,
        0,
        None,
        Seq::<(Seq<u8>, SrcRefModel)>::empty(),
        Seq::<(Seq<u8>, SuperBlockModel)>::empty(),
    )
}

/// The view of an optional byte vector.
pub open spec fn opt_bytes_view(o: Option<Vec<u8>>) -> Option<Seq<u8>> {
    match o {
        Some(v) => Some(v@),
        None => None,
    }
}

/// Parses an annotated assembly listing into a mapping from owning source
/// key to super-block. Input that is not well-formed UTF-8 is rejected as a
/// whole with [`DecodeError`]; empty input yields an empty mapping.
pub fn parse(text: &Vec<u8>, target_filename: &Vec<u8>) -> (r: Result<
    VecMap<SuperBlock>,
    DecodeError,
>)
    ensures
        (r is Ok) == is_valid_utf8(text@),
        r matches Ok(m) ==> m@ == spec_parse(text@, target_filename@) && m.wf(),
{
    if !validate_utf8(text) {
        return Err(DecodeError);
    }
    let lines = split_lines(text);
    let ghost ls = views_of(lines@);
    let ghost target = target_filename@;
    let n = lines.len();
    let mut out: VecMap<SuperBlock> = VecMap::new();
    let mut acc: VecMap<SrcReference> = VecMap::new();
    let mut open_key: Option<Vec<u8>> = None;
    let mut i: usize = 0;
    while i < n
        invariant
            n == lines@.len(),
            i <= n,
            ls == views_of(lines@),
            target == target_filename@,
            acc.wf(),
            out.wf(),
            spec_parse(text@, target) == parse_from(
                ls,
                target,
                i as int,
                opt_bytes_view(open_key),
                acc@,
                out@,
            ),
        decreases n - i,
    {
        let ghost old_open = opt_bytes_view(open_key);
        let ghost old_acc = acc@;
        let ghost old_out = out@;
        match marker_of_line(&lines[i]) {
            None => {
                proof {
                    assert(ls[i as int] == lines@[i as int]@);
                }
                i = i + 1;
            },
            Some((path, digits)) => {
                proof {
                    assert(ls[i as int] == lines@[i as int]@);
                }
                // Collect the raw lines of this block, up to the next marker.
                let mut raw: Vec<Vec<u8>> = Vec::new();
                let mut j = i + 1;
                proof {
                    assert(views_of(raw@) =~= ls.subrange(i + 1, i + 1));
                }
                loop
                    invariant_except_break
                        n == lines@.len(),
                        ls == views_of(lines@),
                        i < n,
                        i + 1 <= j <= n,
                        views_of(raw@) == ls.subrange(i + 1, j as int),
                        forall|k: int| i + 1 <= k < j ==> !is_marker(#[trigger] ls[k]),
                    ensures
                        i + 1 <= j <= n,
                        n == lines@.len(),
                        ls == views_of(lines@),
                        views_of(raw@) == ls.subrange(i + 1, j as int),
                        forall|k: int| i + 1 <= k < j ==> !is_marker(#[trigger] ls[k]),
                        j == n || is_marker(ls[j as int]),
                    decreases n - j,
                {
                    if j >= n {
                        break ;
                    }
                    if marker_of_line(&lines[j]).is_some() {
                        proof {
                            assert(ls[j as int] == lines@[j as int]@);
                        }
                        break ;
                    }
                    proof {
                        assert(ls[j as int] == lines@[j as int]@);
                    }
                    let cl = clone_bytes(&lines[j]);
                    let ghost prev_raw = raw@;
                    raw.push(cl);
                    proof {
                        assert(raw@ == prev_raw.push(cl));
                        assert(views_of(prev_raw).len() == prev_raw.len());
                        assert(ls.subrange(i + 1, j as int).len() == j - i - 1);
                        assert(prev_raw.len() == j - i - 1);
                        assert(views_of(raw@).len() == raw@.len());
                        assert forall|k: int| 0 <= k < raw@.len() implies views_of(raw@)[k]
                            == ls.subrange(i + 1, j + 1)[k] by {
                            if k < prev_raw.len() {
                                assert(views_of(raw@)[k] == raw@[k]@);
                                assert(raw@[k] == prev_raw[k]);
                                assert(views_of(prev_raw)[k] == prev_raw[k]@);
                                assert(views_of(prev_raw)[k] == ls.subrange(i + 1, j as int)[k]);
                                assert(ls.subrange(i + 1, j as int)[k] == ls[i + 1 + k]);
                                assert(ls.subrange(i + 1, j + 1)[k] == ls[i + 1 + k]);
                            } else {
                                assert(k == prev_raw.len());
                                assert(views_of(raw@)[k] == raw@[k]@);
                                assert(raw@[k] == cl);
                                assert(ls.subrange(i + 1, j + 1)[k] == ls[j as int]);
                                assert(ls[j as int] == lines@[j as int]@);
                                assert(cl@ == lines@[j as int]@);
                            }
                        }
                        assert(views_of(raw@) =~= ls.subrange(i + 1, j + 1));
                    }
                    j = j + 1;
                }
                proof {
                    lemma_next_marker_at(ls, i + 1, j as int);
                }
                let key = make_key(&path, &digits);
                let own = contains_sub(&path, target_filename);
                let tokens = filter_block_tokens(&raw);
                let partial = lines_contain_j(&raw);
                let sr = SrcReference {
                    foreign: !own,
                    src_ref: clone_bytes(&key),
                    partial,
                    content: tokens,
                };
                let ghost raw_model = ls.subrange(i + 1, j as int);
                let ghost m = SrcRefModel {
                    foreign: !own,
                    src_ref: key@,
                    partial: has_j(raw_model),
                    content: filter_tokens(raw_model),
                };
                proof {
                    assert(sr@ == m);
                }
                if own {
                    if open_key.is_some() || acc.len() > 0 {
                        let finished = acc;
                        acc = VecMap::new();
                        let sb = FileBlock::create_super_block(finished, open_key).unwrap();
                        proof {
                            assert(sb@ == SuperBlockModel {
                                block_name: close_name(old_open),
                                src_references: old_acc,
                            });
                        }
                        let name = clone_bytes(&sb.block_name);
                        out.insert(name, sb);
                    } else {
                        acc = VecMap::new();
                    }
                    let key_for_acc = clone_bytes(&key);
                    acc.insert(key_for_acc, sr);
                    proof {
                        assert(acc@ =~= seq![(key@, m)]);
                    }
                    open_key = Some(key);
                } else {
                    acc.insert(key, sr);
                }
                i = j;
            },
        }
    }
    if open_key.is_some() || acc.len() > 0 {
        let ghost old_open = opt_bytes_view(open_key);
        let ghost old_acc = acc@;
        let sb = FileBlock::create_super_block(acc, open_key).unwrap();
        proof {
            assert(sb@ == SuperBlockModel {
                block_name: close_name(old_open),
                src_references: old_acc,
            });
        }
        let name = clone_bytes(&sb.block_name);
        out.insert(name, sb);
    }
    Ok(out)
}

/// The literal `.file`.
pub open spec fn file_lit() -> Seq<u8> {
    seq![0x2eu8, 0x66, 0x69, 0x6c, 0x65]
}

/// A `.file "name"` directive starting at position `i`: the literal
/// `.file`, at least one whitespace byte, a double quote, a nonempty run of
/// non-quote bytes (the name), and a closing double quote.
pub open spec fn file_directive_at(t: Seq<u8>, i: int) -> Option<Seq<u8>> {
    if !(0 <= i && i + 5 <= t.len() && t.subrange(i, i + 5) == file_lit()) {
        None
    } else {
        let w = run_len(ByteClass::Ws, t.skip(i + 5)) as int;
        let q0 = i + 5 + w;
        if w == 0 || q0 >= t.len() || t[q0] != 0x22 {
            None
        } else {
            let c = run_len(ByteClass::NotQuote, t.skip(q0 + 1)) as int;
            let ce = q0 + 1 + c;
            if c == 0 || ce >= t.len() {
                None
            } else {
                Some(t.subrange(q0 + 1, ce))
            }
        }
    }
}

/// The name captured by the leftmost `.file "name"` directive at or after
/// position `i`.
pub open spec fn extract_from(t: Seq<u8>, i: int) -> Option<Seq<u8>>
    decreases t.len() - i,
{
    if i >= t.len() {
        None
    } else {
        match file_directive_at(t, i) {
            Some(cap) => Some(cap),
            None => extract_from(t, i + 1),
        }
    }
}

/// The name captured by the leftmost `.file "name"` directive of `t`.
pub open spec fn spec_extract_file_name(t: Seq<u8>) -> Option<Seq<u8>> {
    extract_from(t, 0)
}

/// Matches a `.file "name"` directive starting exactly at `i`.
fn directive_at(v: &Vec<u8>, i: usize) -> (r: Option<Vec<u8>>)
    requires
        i < v@.len(),
    ensures
        (r is Some) == (file_directive_at(v@, i as int) is Some),
        r matches Some(c) ==> file_directive_at(v@, i as int) == Some(c@),
{
    let n = v.len();
    if n - i < 5 {
        return None;
    }
    if !(v[i] == 0x2e && v[i + 1] == 0x66 && v[i + 2] == 0x69 && v[i + 3] == 0x6c && v[i + 4]
        == 0x65) {
        proof {
            let sub = v@.subrange(i as int, i + 5);
            assert(sub[0] == v@[i as int] && sub[1] == v@[i + 1] && sub[2] == v@[i + 2] && sub[3]
                == v@[i + 3] && sub[4] == v@[i + 4]);
            assert(sub != file_lit());
        }
        return None;
    }
    proof {
        assert(v@.subrange(i as int, i + 5) =~= file_lit());
    }
    let w = run_from(v, i + 5, ByteClass::Ws);
    let q0 = i + 5 + w;
    if w == 0 || q0 >= n || v[q0] != 0x22 {
        return None;
    }
    let c = run_from(v, q0 + 1, ByteClass::NotQuote);
    let ce = q0 + 1 + c;
    if c == 0 || ce >= n {
        return None;
    }
    Some(copy_range(v, q0 + 1, ce))
}

/// Extracts the target file name from a listing: the name quoted by the
/// leftmost `.file "name"` directive, if any.
pub fn extract_file_name(file_content: &Vec<u8>) -> (r: Option<Vec<u8>>)
    ensures
        (r is Some) == (spec_extract_file_name(file_content@) is Some),
        r matches Some(v) ==> spec_extract_file_name(file_content@) == Some(v@),
{
    let n = file_content.len();
    let mut i: usize = 0;
    while i < n
        invariant
            n == file_content@.len(),
            i <= n,
            spec_extract_file_name(file_content@) == extract_from(file_content@, i as int),
        decreases n - i,
    {
        match directive_at(file_content, i) {
            Some(cap) => {
                return Some(cap);
            },
            None => {
                i = i + 1;
            },
        }
    }
    None
}

/// Mathematical model of a [`FileBlock`].
pub struct FileBlockModel {
    pub file_path: Seq<u8>,
    pub blocks: Seq<SuperBlockModel>,
}

/// A listing file under comparison: its path and the super-blocks parsed
/// from it.
pub struct FileBlock {
    file_path: Vec<u8>,
    blocks: Vec<SuperBlock>,
}

impl View for FileBlock {
    type V = FileBlockModel;

    closed spec fn view(&self) -> FileBlockModel {
        FileBlockModel {
            file_path: self.file_path@,
            blocks: self.blocks@.map_values(|b: SuperBlock| b@),
        }
    }
}

} // verus!
