//! Byte-level text primitives: classified runs of bytes, line splitting with
//! carriage-return stripping, leading-token extraction, tab expansion, and
//! UTF-8 validation.

use vstd::prelude::*;

verus! {

/// A class of bytes that a scan runs over.
#[derive(Clone, Copy)]
pub enum ByteClass {
    /// Anything but a line feed.
    NotNl,
    /// ASCII whitespace.
    Ws,
    /// Anything but ASCII whitespace.
    NotWs,
    /// A character allowed in a marker path: ASCII alphanumeric, `_`, `.`,
    /// `/`, `+` or `-`.
    PathChar,
    /// An ASCII decimal digit.
    Digit,
    /// Anything but a double quote.
    NotQuote,
}

/// ASCII whitespace: space, tab, line feed, vertical tab, form feed,
/// carriage return.
pub open spec fn is_ws(b: u8) -> bool {
    b == 0x20 || (0x09 <= b && b <= 0x0d)
}

/// ASCII decimal digit.
pub open spec fn is_digit(b: u8) -> bool {
    0x30 <= b && b <= 0x39
}

/// A byte allowed in a marker path.
pub open spec fn is_path_char(b: u8) -> bool {
    (0x41 <= b && b <= 0x5a)  // A-Z
     || (0x61 <= b && b <= 0x7a)  // a-z
     || is_digit(b) || b == 0x5f  // _
     || b == 0x2e  // .
     || b == 0x2f  // /
     || b == 0x2b  // +
     || b == 0x2d  // -

}

/// Membership of a byte in a class.
pub open spec fn in_class(c: ByteClass, b: u8) -> bool {
    match c {
        ByteClass::NotNl => b != 0x0a,
        ByteClass::Ws => is_ws(b),
        ByteClass::NotWs => !is_ws(b),
        ByteClass::PathChar => is_path_char(b),
        ByteClass::Digit => is_digit(b),
        ByteClass::NotQuote => b != 0x22,
    }
}

/// Length of the longest prefix of `s` whose bytes all lie in class `c`.
pub open spec fn run_len(c: ByteClass, s: Seq<u8>) -> nat
    decreases s.len(),
{
    if s.len() == 0 {
        0
    } else if !in_class(c, s[0]) {
        0
    } else {
        (1 + run_len(c, s.drop_first())) as nat
    }
}

/// The run is a maximal in-class prefix.
pub proof fn lemma_run_len(c: ByteClass, s: Seq<u8>)
    ensures
        run_len(c, s) <= s.len(),
        forall|k: int| 0 <= k < run_len(c, s) ==> in_class(c, #[trigger] s[k]),
        run_len(c, s) < s.len() ==> !in_class(c, s[run_len(c, s) as int]),
    decreases s.len(),
{
    if s.len() == 0 || !in_class(c, s[0]) {
    } else {
        lemma_run_len(c, s.drop_first());
        assert forall|k: int| 0 <= k < run_len(c, s) implies in_class(c, #[trigger] s[k]) by {
            if k > 0 {
                assert(s.drop_first()[k - 1] == s[k]);
            }
        }
        if run_len(c, s) < s.len() {
            assert(s.drop_first()[run_len(c, s) - 1] == s[run_len(c, s) as int]);
        }
    }
}

/// A position bounding an in-class prefix and stopping it determines the
/// run length exactly.
pub proof fn lemma_run_len_exact(c: ByteClass, s: Seq<u8>, m: int)
    requires
        0 <= m <= s.len(),
        forall|k: int| 0 <= k < m ==> in_class(c, #[trigger] s[k]),
        m < s.len() ==> !in_class(c, s[m]),
    ensures
        run_len(c, s) == m,
    decreases s.len(),
{
    if s.len() == 0 {
    } else if m == 0 {
    } else {
        assert(in_class(c, s[0]));
        assert(forall|k: int| 0 <= k < m - 1 ==> #[trigger] s.drop_first()[k] == s[k + 1]);
        if m - 1 < s.drop_first().len() {
            assert(s.drop_first()[m - 1] == s[m]);
        }
        lemma_run_len_exact(c, s.drop_first(), m - 1);
    }
}

/// Whether `b` lies in class `c`.
pub fn byte_in_class(c: ByteClass, b: u8) -> (r: bool)
    ensures
        r == in_class(c, b),
{
    match c {
        ByteClass::NotNl => b != 0x0a,
        ByteClass::Ws => b == 0x20 || (0x09 <= b && b <= 0x0d),
        ByteClass::NotWs => !(b == 0x20 || (0x09 <= b && b <= 0x0d)),
        ByteClass::PathChar => (0x41 <= b && b <= 0x5a) || (0x61 <= b && b <= 0x7a) || (0x30 <= b
            && b <= 0x39) || b == 0x5f || b == 0x2e || b == 0x2f || b == 0x2b || b == 0x2d,
        ByteClass::Digit => 0x30 <= b && b <= 0x39,
        ByteClass::NotQuote => b != 0x22,
    }
}

/// Length of the in-class run of `v` starting at `start`.
pub fn run_from(v: &Vec<u8>, start: usize, c: ByteClass) -> (r: usize)
    requires
        start <= v@.len(),
    ensures
        r == run_len(c, v@.skip(start as int)),
        start + r <= v@.len(),
{
    let n = v.len();
    let mut i = start;
    loop
        invariant_except_break
            n == v@.len(),
            start <= i <= n,
            forall|k: int| start <= k < i ==> in_class(c, #[trigger] v@[k]),
        ensures
            start <= i <= n,
            n == v@.len(),
            forall|k: int| start <= k < i ==> in_class(c, #[trigger] v@[k]),
            i == n || !in_class(c, v@[i as int]),
        decreases n - i,
    {
        if i >= n {
            break ;
        }
        if !byte_in_class(c, v[i]) {
            break ;
        }
        i = i + 1;
    }
    proof {
        let s = v@.skip(start as int);
        assert(forall|k: int| 0 <= k < s.len() ==> #[trigger] s[k] == v@[start + k]);
        lemma_run_len_exact(c, s, i - start);
    }
    i - start
}

/// `s` with one trailing carriage return removed, if present.
pub open spec fn strip_cr(s: Seq<u8>) -> Seq<u8> {
    if s.len() > 0 && s.last() == 0x0d {
        s.drop_last()
    } else {
        s
    }
}

/// The lines of `t`: split at each line feed, dropping a carriage return
/// that immediately precedes the line feed; a final line ending is
/// optional and produces no empty trailing line.
pub open spec fn spec_lines(t: Seq<u8>) -> Seq<Seq<u8>>
    decreases t.len(),
{
    if t.len() == 0 {
        seq![]
    } else {
        let i = run_len(ByteClass::NotNl, t) as int;
        if i >= t.len() {
            seq![t]
        } else {
            seq![strip_cr(t.take(i))] + spec_lines(t.skip(i + 1))
        }
    }
}

/// A copy of `v[from..to]`.
pub fn copy_range(v: &Vec<u8>, from: usize, to: usize) -> (r: Vec<u8>)
    requires
        from <= to <= v@.len(),
    ensures
        r@ == v@.subrange(from as int, to as int),
{
    let mut r: Vec<u8> = Vec::new();
    let mut q = from;
    while q < to
        invariant
            from <= q <= to <= v@.len(),
            r@ == v@.subrange(from as int, q as int),
        decreases to - q,
    {
        r.push(v[q]);
        proof {
            assert(r@ =~= v@.subrange(from as int, q + 1));
        }
        q = q + 1;
    }
    proof {
        assert(r@ =~= v@.subrange(from as int, to as int));
    }
    r
}

/// Splits `text` into lines as [`spec_lines`] describes.
pub fn split_lines(text: &Vec<u8>) -> (r: Vec<Vec<u8>>)
    ensures
        crate::byteops::views_of(r@) == spec_lines(text@),
{
    let mut out: Vec<Vec<u8>> = Vec::new();
    let mut pos: usize = 0;
    let n = text.len();
    proof {
        assert(crate::byteops::views_of(out@) =~= Seq::<Seq<u8>>::empty());
        assert(text@.skip(0) =~= text@);
    }
    while pos < n
        invariant
            n == text@.len(),
            pos <= n,
            spec_lines(text@) == crate::byteops::views_of(out@) + spec_lines(
                text@.skip(pos as int),
            ),
        decreases n - pos,
    {
        let ghost prev_out = out@;
        let ghost rest = text@.skip(pos as int);
        let k = run_from(text, pos, ByteClass::NotNl);
        let end = pos + k;
        let line_end = if end < n && end > pos && text[end - 1] == 0x0d {
            end - 1
        } else {
            end
        };
        let line = copy_range(text, pos, line_end);
        out.push(line);
        proof {
            lemma_run_len(ByteClass::NotNl, rest);
            assert(forall|m: int| 0 <= m < rest.len() ==> #[trigger] rest[m] == text@[pos + m]);
            assert(crate::byteops::views_of(out@) =~= crate::byteops::views_of(prev_out) + seq![
                line@,
            ]);
        }
        if end < n {
            proof {
                assert(rest[k as int] == text@[pos + k]);
                assert(rest.take(k as int) =~= text@.subrange(pos as int, end as int));
                if end > pos && text@[end - 1] == 0x0d {
                    assert(strip_cr(rest.take(k as int)) =~= text@.subrange(
                        pos as int,
                        line_end as int,
                    ));
                } else {
                    assert(strip_cr(rest.take(k as int)) =~= text@.subrange(
                        pos as int,
                        line_end as int,
                    ));
                }
                assert(rest.skip(k + 1) =~= text@.skip(end + 1));
                assert(spec_lines(rest) == seq![line@] + spec_lines(text@.skip(end + 1)));
                assert(crate::byteops::views_of(prev_out) + spec_lines(rest)
                    == crate::byteops::views_of(out@) + spec_lines(text@.skip(end + 1)));
            }
            pos = end + 1;
        } else {
            proof {
                assert(k == rest.len());
                assert(rest.take(k as int) =~= rest);
                assert(line@ =~= rest);
                assert(spec_lines(rest) == seq![line@]);
                assert(text@.skip(n as int) =~= Seq::<u8>::empty());
                assert(crate::byteops::views_of(prev_out) + spec_lines(rest)
                    == crate::byteops::views_of(out@) + spec_lines(text@.skip(n as int)));
            }
            pos = n;
        }
    }
    proof {
        assert(text@.skip(n as int) =~= Seq::<u8>::empty());
        assert(crate::byteops::views_of(out@) + spec_lines(text@.skip(pos as int))
            =~= crate::byteops::views_of(out@));
    }
    out
}

/// The first whitespace-delimited token of a line (empty when the line is
/// blank or all whitespace).
pub open spec fn first_token(line: Seq<u8>) -> Seq<u8> {
    let w = run_len(ByteClass::Ws, line) as int;
    let t = run_len(ByteClass::NotWs, line.skip(w)) as int;
    line.subrange(w, w + t)
}

/// Extracts the first whitespace-delimited token of a line.
pub fn first_token_of(line: &Vec<u8>) -> (r: Vec<u8>)
    ensures
        r@ == first_token(line@),
{
    proof {
        assert(line@.skip(0) =~= line@);
    }
    let n = line.len();
    let w = run_from(line, 0, ByteClass::Ws);
    let t = run_from(line, w, ByteClass::NotWs);
    proof {
        assert(w + t <= n);
    }
    copy_range(line, w, w + t)
}

/// `s` with every tab expanded to two spaces.
pub open spec fn tab2sp(s: Seq<u8>) -> Seq<u8>
    decreases s.len(),
{
    if s.len() == 0 {
        Seq::empty()
    } else {
        (if s[0] == 0x09 {
            seq![0x20u8, 0x20u8]
        } else {
            seq![s[0]]
        }) + tab2sp(s.drop_first())
    }
}

/// Replaces every tab in `v` with two spaces.
pub fn replace_tabs(v: &Vec<u8>) -> (r: Vec<u8>)
    ensures
        r@ == tab2sp(v@),
{
    let mut out: Vec<u8> = Vec::new();
    let n = v.len();
    let mut i: usize = 0;
    proof {
        assert(v@.skip(0) =~= v@);
    }
    while i < n
        invariant
            n == v@.len(),
            i <= n,
            tab2sp(v@) == out@ + tab2sp(v@.skip(i as int)),
        decreases n - i,
    {
        let ghost rest = v@.skip(i as int);
        let ghost prev = out@;
        if v[i] == 0x09 {
            out.push(0x20);
            out.push(0x20);
        } else {
            out.push(v[i]);
        }
        proof {
            assert(rest[0] == v@[i as int]);
            assert(rest.drop_first() =~= v@.skip(i + 1));
            if v@[i as int] == 0x09 {
                assert(out@ =~= prev + seq![0x20u8, 0x20u8]);
                assert(prev + (seq![0x20u8, 0x20u8] + tab2sp(v@.skip(i + 1))) =~= out@ + tab2sp(
                    v@.skip(i + 1),
                ));
            } else {
                assert(out@ =~= prev + seq![v@[i as int]]);
                assert(prev + (seq![v@[i as int]] + tab2sp(v@.skip(i + 1))) =~= out@ + tab2sp(
                    v@.skip(i + 1),
                ));
            }
        }
        i = i + 1;
    }
    proof {
        assert(v@.skip(n as int) =~= Seq::<u8>::empty());
        assert(out@ + tab2sp(v@.skip(n as int)) =~= out@);
    }
    out
}

/// A UTF-8 continuation byte.
pub open spec fn is_cont(b: u8) -> bool {
    0x80 <= b && b <= 0xbf
}

/// Well-formed UTF-8: each scalar value encoded in its shortest form, with
/// surrogates and values above U+10FFFF excluded.
pub open spec fn is_valid_utf8(t: Seq<u8>) -> bool
    decreases t.len(),
{
    if t.len() == 0 {
        true
    } else {
        let b = t[0];
        if b < 0x80 {
            is_valid_utf8(t.skip(1))
        } else if b < 0xc2 {
            false
        } else if b < 0xe0 {
            t.len() >= 2 && is_cont(t[1]) && is_valid_utf8(t.skip(2))
        } else if b == 0xe0 {
            t.len() >= 3 && 0xa0 <= t[1] && t[1] <= 0xbf && is_cont(t[2]) && is_valid_utf8(
                t.skip(3),
            )
        } else if b == 0xed {
            t.len() >= 3 && 0x80 <= t[1] && t[1] <= 0x9f && is_cont(t[2]) && is_valid_utf8(
                t.skip(3),
            )
        } else if b < 0xf0 {
            t.len() >= 3 && is_cont(t[1]) && is_cont(t[2]) && is_valid_utf8(t.skip(3))
        } else if b == 0xf0 {
            t.len() >= 4 && 0x90 <= t[1] && t[1] <= 0xbf && is_cont(t[2]) && is_cont(t[3])
                && is_valid_utf8(t.skip(4))
        } else if b < 0xf4 {
            t.len() >= 4 && is_cont(t[1]) && is_cont(t[2]) && is_cont(t[3]) && is_valid_utf8(
                t.skip(4),
            )
        } else if b == 0xf4 {
            t.len() >= 4 && 0x80 <= t[1] && t[1] <= 0x8f && is_cont(t[2]) && is_cont(t[3])
                && is_valid_utf8(t.skip(4))
        } else {
            false
        }
    }
}

/// Checks that `v` is well-formed UTF-8.
pub fn validate_utf8(v: &Vec<u8>) -> (r: bool)
    ensures
        r == is_valid_utf8(v@),
{
    let n = v.len();
    let mut i: usize = 0;
    proof {
        assert(v@.skip(0) =~= v@);
    }
    while i < n
        invariant
            n == v@.len(),
            i <= n,
            is_valid_utf8(v@) == is_valid_utf8(v@.skip(i as int)),
        decreases n - i,
    {
        let ghost rest = v@.skip(i as int);
        proof {
            assert(forall|m: int| 0 <= m < rest.len() ==> #[trigger] rest[m] == v@[i + m]);
        }
        let b = v[i];
        let step: usize;
        if b < 0x80 {
            step = 1;
        } else if b < 0xc2 {
            return false;
        } else if b < 0xe0 {
            if i + 1 >= n || !(0x80 <= v[i + 1] && v[i + 1] <= 0xbf) {
                return false;
            }
            step = 2;
        } else if b < 0xf0 {
            if n - i < 3 {
                return false;
            }
            let b1 = v[i + 1];
            let b2 = v[i + 2];
            let lo: u8 = if b == 0xe0 {
                0xa0
            } else {
                0x80
            };
            let hi: u8 = if b == 0xed {
                0x9f
            } else {
                0xbf
            };
            if !(lo <= b1 && b1 <= hi) || !(0x80 <= b2 && b2 <= 0xbf) {
                return false;
            }
            step = 3;
        } else if b < 0xf5 {
            if n - i < 4 {
                return false;
            }
            let b1 = v[i + 1];
            let b2 = v[i + 2];
            let b3 = v[i + 3];
            let lo: u8 = if b == 0xf0 {
                0x90
            } else {
                0x80
            };
            let hi: u8 = if b == 0xf4 {
                0x8f
            } else {
                0xbf
            };
            if !(lo <= b1 && b1 <= hi) || !(0x80 <= b2 && b2 <= 0xbf) || !(0x80 <= b3 && b3
                <= 0xbf) {
                return false;
            }
            step = 4;
        } else {
            return false;
        }
        proof {
            assert(rest.skip(step as int) =~= v@.skip(i + step));
        }
        i = i + step;
    }
    proof {
        assert(v@.skip(n as int) =~= Seq::<u8>::empty());
    }
    true
}

} // verus!
