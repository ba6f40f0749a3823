//! The line classifier: one forward pass over a file's raw bytes,
//! splitting them into lines and sorting every line into exactly one of
//! three bins — comment, blank, or code — with a single bit of state that
//! records whether a multi-line comment block is open.

use vstd::prelude::*;

use crate::stats::FileInfo;

verus! {

/// The bytes the classifier looks for, by name.
pub const NL: u8 = 10;

pub const BANG: u8 = 33;

pub const DQUOTE: u8 = 34;

pub const HASH: u8 = 35;

pub const SQUOTE: u8 = 39;

pub const STAR: u8 = 42;

pub const DASH: u8 = 45;

pub const SLASH: u8 = 47;

pub const SEMI: u8 = 59;

pub const LT: u8 = 60;

pub const GT: u8 = 62;

/// How one line of a file is counted.
#[derive(Clone, Copy, Debug)]
pub enum LineKind {
    Comment,
    Blank,
    Code,
}

/// ASCII whitespace: space, tab, line feed, vertical tab, form feed,
/// carriage return.
pub open spec fn is_ascii_space(b: u8) -> bool {
    b == 0x20 || (0x09 <= b && b <= 0x0d)
}

/// The three-byte UTF-8 encodings of the whitespace characters U+1680,
/// U+2000 through U+200A, U+2028, U+2029, U+202F, U+205F, and U+3000.
pub open spec fn is_wide_space(a: u8, b: u8, c: u8) -> bool {
    ||| (a == 0xe1 && b == 0x9a && c == 0x80)
    ||| (a == 0xe2 && b == 0x80 && ((0x80 <= c && c <= 0x8a) || c == 0xa8 || c == 0xa9 || c
        == 0xaf))
    ||| (a == 0xe2 && b == 0x81 && c == 0x9f)
    ||| (a == 0xe3 && b == 0x80 && c == 0x80)
}

/// The length of the UTF-8 encoding of a whitespace character standing
/// at the front of `s`, or `0` when none does. Whitespace is everything
/// `char::is_whitespace` accepts: the six ASCII spaces, the two-byte
/// U+0085 and U+00A0, and the three-byte spaces of `is_wide_space`. A
/// lead byte opens a character wherever it stands, so matching the
/// exact encodings at the ends of a line trims the same characters that
/// trimming the lossily decoded text would.
pub open spec fn space_len_front(s: Seq<u8>) -> int {
    if s.len() >= 1 && is_ascii_space(s[0]) {
        1
    } else if s.len() >= 2 && s[0] == 0xc2 && (s[1] == 0x85 || s[1] == 0xa0) {
        2
    } else if s.len() >= 3 && is_wide_space(s[0], s[1], s[2]) {
        3
    } else {
        0
    }
}

/// The length of the UTF-8 encoding of a whitespace character closing
/// `s`, or `0` when none does.
pub open spec fn space_len_end(s: Seq<u8>) -> int {
    if s.len() >= 1 && is_ascii_space(s.last()) {
        1
    } else if s.len() >= 2 && s[s.len() - 2] == 0xc2 && (s.last() == 0x85 || s.last() == 0xa0) {
        2
    } else if s.len() >= 3 && is_wide_space(s[s.len() - 3], s[s.len() - 2], s.last()) {
        3
    } else {
        0
    }
}

/// The input split into lines at `\n`, scanned left to right; `cur` holds
/// the bytes of the line being gathered. A final unterminated line still
/// counts as a line; a terminator at the very end opens no extra empty line.
pub open spec fn split_lines_from(s: Seq<u8>, cur: Seq<u8>) -> Seq<Seq<u8>>
    decreases s.len(),
{
    if s.len() == 0 {
        if cur.len() == 0 {
            Seq::empty()
        } else {
            seq![cur]
        }
    } else if s[0] == NL {
        seq![cur] + split_lines_from(s.drop_first(), Seq::empty())
    } else {
        split_lines_from(s.drop_first(), cur.push(s[0]))
    }
}

/// The lines of a whole input.
pub open spec fn lines_of(s: Seq<u8>) -> Seq<Seq<u8>> {
    split_lines_from(s, Seq::empty())
}

/// Leading whitespace removed, one encoded character at a time.
pub open spec fn trim_front(s: Seq<u8>) -> Seq<u8>
    decreases s.len(),
{
    let l = space_len_front(s);
    if l > 0 {
        trim_front(s.skip(l))
    } else {
        s
    }
}

/// Trailing whitespace removed, one encoded character at a time.
pub open spec fn trim_back(s: Seq<u8>) -> Seq<u8>
    decreases s.len(),
{
    let l = space_len_end(s);
    if l > 0 {
        trim_back(s.take(s.len() - l))
    } else {
        s
    }
}

/// Whitespace removed from both ends.
pub open spec fn trimmed(s: Seq<u8>) -> Seq<u8> {
    trim_front(trim_back(s))
}

/// The trimmed line opens with a single-line comment marker:
/// `//`, `#`, `--`, or `;`. (The markers `//!` and `///` need no case of
/// their own: every line carrying them already opens with `//`.)
pub open spec fn begins_line_comment(t: Seq<u8>) -> bool {
    ||| (t.len() >= 2 && t[0] == SLASH && t[1] == SLASH)
    ||| (t.len() >= 1 && t[0] == HASH)
    ||| (t.len() >= 2 && t[0] == DASH && t[1] == DASH)
    ||| (t.len() >= 1 && t[0] == SEMI)
}

/// The trimmed line opens a C-style block comment: `/*`.
pub open spec fn begins_c_block(t: Seq<u8>) -> bool {
    t.len() >= 2 && t[0] == SLASH && t[1] == STAR
}

/// The trimmed line opens a text-style block comment: `'''`, `"""`, or `<!--`.
pub open spec fn begins_text_block(t: Seq<u8>) -> bool {
    ||| (t.len() >= 3 && t[0] == SQUOTE && t[1] == SQUOTE && t[2] == SQUOTE)
    ||| (t.len() >= 3 && t[0] == DQUOTE && t[1] == DQUOTE && t[2] == DQUOTE)
    ||| (t.len() >= 4 && t[0] == LT && t[1] == BANG && t[2] == DASH && t[3] == DASH)
}

/// The trimmed line closes with `*/`.
pub open spec fn ends_star_slash(t: Seq<u8>) -> bool {
    t.len() >= 2 && t[t.len() - 2] == STAR && t[t.len() - 1] == SLASH
}

/// The trimmed line closes with `'''`, `"""`, or `-->`.
pub open spec fn ends_text_close(t: Seq<u8>) -> bool {
    ||| (t.len() >= 3 && t[t.len() - 3] == SQUOTE && t[t.len() - 2] == SQUOTE && t[t.len() - 1]
        == SQUOTE)
    ||| (t.len() >= 3 && t[t.len() - 3] == DQUOTE && t[t.len() - 2] == DQUOTE && t[t.len() - 1]
        == DQUOTE)
    ||| (t.len() >= 3 && t[t.len() - 3] == DASH && t[t.len() - 2] == DASH && t[t.len() - 1]
        == GT)
}

/// The trimmed line closes with any recognized block-comment closer.
pub open spec fn ends_block_close(t: Seq<u8>) -> bool {
    ends_star_slash(t) || ends_text_close(t)
}

/// How a trimmed line `t` is counted, given whether a block comment is
/// open when the line starts. Inside a block everything is a comment,
/// even a line that also carries code beside the closer.
pub open spec fn line_kind(t: Seq<u8>, in_block: bool) -> LineKind {
    if in_block {
        LineKind::Comment
    } else if begins_line_comment(t) {
        LineKind::Comment
    } else if begins_c_block(t) {
        LineKind::Comment
    } else if begins_text_block(t) {
        LineKind::Comment
    } else if t.len() == 0 {
        LineKind::Blank
    } else {
        LineKind::Code
    }
}

/// Whether a block comment is open after a trimmed line `t`, given
/// whether one was open when the line started. A line inside a block is
/// ended by any recognized closer, not only the one that matches the
/// opener. A line that opens a block keeps it open unless the line also
/// ends with a closer of the opener's own family: `*/` for a `/*` line,
/// one of `'''`, `"""`, `-->` for a text-style line.
pub open spec fn block_after(t: Seq<u8>, in_block: bool) -> bool {
    if in_block {
        !ends_block_close(t)
    } else if begins_line_comment(t) {
        false
    } else if begins_c_block(t) {
        !ends_star_slash(t)
    } else if begins_text_block(t) {
        !ends_text_close(t)
    } else {
        false
    }
}

/// The three line counts of a file, as unbounded integers.
#[verifier::ext_equal]
pub ghost struct LineTally {
    pub comments: int,
    pub blanks: int,
    pub code: int,
}

/// No lines counted yet.
pub open spec fn tally_zero() -> LineTally {
    LineTally { comments: 0, blanks: 0, code: 0 }
}

/// One line of kind `k` added to a tally.
pub open spec fn tally_line(tally: LineTally, k: LineKind) -> LineTally {
    match k {
        LineKind::Comment => LineTally { comments: tally.comments + 1, ..tally },
        LineKind::Blank => LineTally { blanks: tally.blanks + 1, ..tally },
        LineKind::Code => LineTally { code: tally.code + 1, ..tally },
    }
}

/// The tally of a sequence of raw (untrimmed) lines, entered with a block
/// comment open or not according to `in_block`.
pub open spec fn tally_lines(lines: Seq<Seq<u8>>, in_block: bool) -> LineTally
    decreases lines.len(),
{
    if lines.len() == 0 {
        tally_zero()
    } else {
        let t = trimmed(lines[0]);
        tally_line(
            tally_lines(lines.drop_first(), block_after(t, in_block)),
            line_kind(t, in_block),
        )
    }
}

/// What the classifier owes for a whole byte input: the tally of its
/// lines, entered with no block comment open.
pub open spec fn tally_of(s: Seq<u8>) -> LineTally {
    tally_lines(lines_of(s), false)
}

/// All three counts of a tally are counts: none is negative.
pub proof fn lemma_tally_nonneg(lines: Seq<Seq<u8>>, in_block: bool)
    ensures
        tally_lines(lines, in_block).comments >= 0,
        tally_lines(lines, in_block).blanks >= 0,
        tally_lines(lines, in_block).code >= 0,
    decreases lines.len(),
{
    if lines.len() > 0 {
        lemma_tally_nonneg(lines.drop_first(), block_after(trimmed(lines[0]), in_block));
    }
}

/// Every line lands in exactly one bin: the three counts of a tally sum
/// to the number of lines, whatever state the lines are entered in.
pub proof fn lemma_tally_total(lines: Seq<Seq<u8>>, in_block: bool)
    ensures
        tally_lines(lines, in_block).comments + tally_lines(lines, in_block).blanks
            + tally_lines(lines, in_block).code == lines.len(),
    decreases lines.len(),
{
    if lines.len() > 0 {
        lemma_tally_total(lines.drop_first(), block_after(trimmed(lines[0]), in_block));
    }
}

/// An input of `n` bytes splits into at most `n` lines.
pub proof fn lemma_split_lines_count(s: Seq<u8>, cur: Seq<u8>)
    ensures
        split_lines_from(s, cur).len() <= s.len() + if cur.len() > 0 {
            1int
        } else {
            0int
        },
    decreases s.len(),
{
    if s.len() > 0 {
        if s[0] == NL {
            lemma_split_lines_count(s.drop_first(), Seq::empty());
        } else {
            lemma_split_lines_count(s.drop_first(), cur.push(s[0]));
        }
    }
}

/// Law: an input of newline bytes alone holds nothing but blank lines —
/// one for each newline, and no comment or code line.
pub proof fn lemma_all_newlines_blank(s: Seq<u8>)
    requires
        forall|i: int| 0 <= i < s.len() ==> s[i] == NL,
    ensures
        tally_of(s) == (LineTally { comments: 0, blanks: s.len() as int, code: 0 }),
    decreases s.len(),
{
    if s.len() == 0 {
        assert(lines_of(s) =~= Seq::<Seq<u8>>::empty());
    } else {
        let rest = s.drop_first();
        assert(s[0] == NL);
        assert forall|i: int| 0 <= i < rest.len() implies rest[i] == NL by {
            assert(rest[i] == s[i + 1]);
        }
        lemma_all_newlines_blank(rest);
        let empty_line = Seq::<u8>::empty();
        let whole = lines_of(s);
        assert(whole == seq![empty_line] + lines_of(rest));
        assert(whole[0] == empty_line);
        assert(whole.drop_first() =~= lines_of(rest));
        assert(trimmed(empty_line) == empty_line);
        assert(line_kind(empty_line, false) == LineKind::Blank);
        assert(!block_after(empty_line, false));
        assert(tally_lines(whole, false) == tally_line(
            tally_lines(lines_of(rest), false),
            LineKind::Blank,
        ));
    }
}

/// Law: a line that opens a block comment and closes it on the spot —
/// with a closer of the opener's own family — is counted once as a
/// comment and leaves no block open behind it.
pub proof fn lemma_self_closing_block(t: Seq<u8>, in_block: bool)
    requires
        !in_block,
        (begins_c_block(t) && ends_star_slash(t)) || (begins_text_block(t) && ends_text_close(t)),
    ensures
        line_kind(t, in_block) == LineKind::Comment,
        !block_after(t, in_block),
{
}

/// The file record that a byte input is owed: its tally, standing for
/// one file. The counts fit in `u64` because a file holds at most
/// `usize::MAX` bytes and so at most that many lines.
pub open spec fn file_stat_of(s: Seq<u8>) -> FileInfo {
    FileInfo {
        comments_count: tally_of(s).comments as u64,
        blank_spaces_count: tally_of(s).blanks as u64,
        lines_of_code: tally_of(s).code as u64,
        nums_of_files: 1,
    }
}

/// Law: the classifier accounts for every line of the input exactly once.
/// For any byte input, the comment, blank, and code counts sum to the
/// number of lines.
pub proof fn lemma_classifier_total(s: Seq<u8>)
    ensures
        tally_of(s).comments + tally_of(s).blanks + tally_of(s).code == lines_of(s).len(),
{
    lemma_tally_total(lines_of(s), false);
}

/// Executable twin of `is_wide_space`.
fn wide_space(a: u8, b: u8, c: u8) -> (r: bool)
    ensures
        r == is_wide_space(a, b, c),
{
    (a == 0xe1 && b == 0x9a && c == 0x80) || (a == 0xe2 && b == 0x80 && ((0x80 <= c && c <= 0x8a)
        || c == 0xa8 || c == 0xa9 || c == 0xaf)) || (a == 0xe2 && b == 0x81 && c == 0x9f) || (a
        == 0xe3 && b == 0x80 && c == 0x80)
}

/// The length of the whitespace encoding opening `bytes[lo..hi]`, or `0`.
fn space_len_at(bytes: &Vec<u8>, lo: usize, hi: usize) -> (l: usize)
    requires
        lo <= hi <= bytes@.len(),
    ensures
        l == space_len_front(bytes@.subrange(lo as int, hi as int)),
{
    let n: usize = hi - lo;
    if n >= 1 {
        let a = bytes[lo];
        if a == 0x20 || (0x09 <= a && a <= 0x0d) {
            return 1;
        }
        if n >= 2 && a == 0xc2 && (bytes[lo + 1] == 0x85 || bytes[lo + 1] == 0xa0) {
            return 2;
        }
        if n >= 3 && wide_space(a, bytes[lo + 1], bytes[lo + 2]) {
            return 3;
        }
    }
    0
}

/// The length of the whitespace encoding closing `bytes[lo..hi]`, or `0`.
fn space_len_before(bytes: &Vec<u8>, lo: usize, hi: usize) -> (l: usize)
    requires
        lo <= hi <= bytes@.len(),
    ensures
        l == space_len_end(bytes@.subrange(lo as int, hi as int)),
{
    let n: usize = hi - lo;
    if n >= 1 {
        let z = bytes[hi - 1];
        if z == 0x20 || (0x09 <= z && z <= 0x0d) {
            return 1;
        }
        if n >= 2 && bytes[hi - 2] == 0xc2 && (z == 0x85 || z == 0xa0) {
            return 2;
        }
        if n >= 3 && wide_space(bytes[hi - 3], bytes[hi - 2], z) {
            return 3;
        }
    }
    0
}

/// Classifies the line held in `bytes[start..end]`: trims it, then
/// reports how it is counted and whether a block comment is open after it.
fn classify_line(bytes: &Vec<u8>, start: usize, end: usize, in_block: bool) -> (r: (LineKind, bool))
    requires
        start <= end <= bytes@.len(),
    ensures
        ({
            let t = trimmed(bytes@.subrange(start as int, end as int));
            r.0 == line_kind(t, in_block) && r.1 == block_after(t, in_block)
        }),
{
    let mut hi = end;
    let mut bl: usize = space_len_before(bytes, start, hi);
    while bl > 0
        invariant
            start <= hi <= end <= bytes@.len(),
            bl == space_len_end(bytes@.subrange(start as int, hi as int)),
            trim_back(bytes@.subrange(start as int, end as int)) == trim_back(
                bytes@.subrange(start as int, hi as int),
            ),
        decreases hi,
    {
        proof {
            let cur = bytes@.subrange(start as int, hi as int);
            assert(cur.take(cur.len() - bl) =~= bytes@.subrange(start as int, hi - bl));
        }
        hi = hi - bl;
        bl = space_len_before(bytes, start, hi);
    }
    let mut lo = start;
    let mut fl: usize = space_len_at(bytes, lo, hi);
    while fl > 0
        invariant
            start <= lo <= hi <= bytes@.len(),
            fl == space_len_front(bytes@.subrange(lo as int, hi as int)),
            trim_back(bytes@.subrange(start as int, end as int)) == bytes@.subrange(
                start as int,
                hi as int,
            ),
            trim_front(bytes@.subrange(start as int, hi as int)) == trim_front(
                bytes@.subrange(lo as int, hi as int),
            ),
        decreases hi - lo,
    {
        proof {
            let cur = bytes@.subrange(lo as int, hi as int);
            assert(cur.skip(fl as int) =~= bytes@.subrange(lo + fl, hi as int));
        }
        lo = lo + fl;
        fl = space_len_at(bytes, lo, hi);
    }
    proof {
        assert(trimmed(bytes@.subrange(start as int, end as int)) == bytes@.subrange(
            lo as int,
            hi as int,
        ));
    }
    let ghost t = trimmed(bytes@.subrange(start as int, end as int));
    let n: usize = hi - lo;
    let text_closes = n >= 3 && ((bytes[hi - 3] == SQUOTE && bytes[hi - 2] == SQUOTE && bytes[hi
        - 1] == SQUOTE) || (bytes[hi - 3] == DQUOTE && bytes[hi - 2] == DQUOTE && bytes[hi - 1]
        == DQUOTE) || (bytes[hi - 3] == DASH && bytes[hi - 2] == DASH && bytes[hi - 1] == GT));
    assert(text_closes == ends_text_close(t));
    if in_block {
        let closes = (n >= 2 && bytes[hi - 2] == STAR && bytes[hi - 1] == SLASH) || text_closes;
        assert(closes == ends_block_close(t));
        return (LineKind::Comment, !closes);
    }
    if (n >= 2 && bytes[lo] == SLASH && bytes[lo + 1] == SLASH) || (n >= 1 && bytes[lo] == HASH)
        || (n >= 2 && bytes[lo] == DASH && bytes[lo + 1] == DASH) || (n >= 1 && bytes[lo]
        == SEMI) {
        assert(begins_line_comment(t));
        return (LineKind::Comment, false);
    }
    assert(!begins_line_comment(t));
    if n >= 2 && bytes[lo] == SLASH && bytes[lo + 1] == STAR {
        let closed_here = n >= 2 && bytes[hi - 2] == STAR && bytes[hi - 1] == SLASH;
        assert(closed_here == ends_star_slash(t));
        return (LineKind::Comment, !closed_here);
    }
    assert(!begins_c_block(t));
    if (n >= 3 && ((bytes[lo] == SQUOTE && bytes[lo + 1] == SQUOTE && bytes[lo + 2] == SQUOTE) || (
    bytes[lo] == DQUOTE && bytes[lo + 1] == DQUOTE && bytes[lo + 2] == DQUOTE))) || (n >= 4
        && bytes[lo] == LT && bytes[lo + 1] == BANG && bytes[lo + 2] == DASH && bytes[lo + 3]
        == DASH) {
        assert(begins_text_block(t));
        return (LineKind::Comment, !text_closes);
    }
    assert(!begins_text_block(t));
    if n == 0 {
        (LineKind::Blank, false)
    } else {
        (LineKind::Code, false)
    }
}

/// The Line Classifier: counts the comment, blank, and code lines of a
/// file given as raw bytes, in one forward pass. Total over any byte
/// input; the result records exactly the tally that the specification
/// assigns to the input's lines, and stands for one file.
pub fn classify(bytes: &Vec<u8>) -> (r: FileInfo)
    ensures
        r.comments_count == tally_of(bytes@).comments,
        r.blank_spaces_count == tally_of(bytes@).blanks,
        r.lines_of_code == tally_of(bytes@).code,
        r.nums_of_files == 1,
        r == file_stat_of(bytes@),
{
    let ghost total = tally_of(bytes@);
    let mut comments: u64 = 0;
    let mut blanks: u64 = 0;
    let mut code: u64 = 0;
    let mut in_block = false;
    let mut line_start: usize = 0;
    let mut i: usize = 0;
    proof {
        assert(bytes@.skip(0) =~= bytes@);
        assert(bytes@.subrange(0, 0) =~= Seq::<u8>::empty());
        lemma_split_lines_count(bytes@, Seq::empty());
        lemma_tally_total(lines_of(bytes@), false);
    }
    while i < bytes.len()
        invariant
            line_start <= i <= bytes@.len(),
            total == tally_of(bytes@),
            total.comments + total.blanks + total.code == lines_of(bytes@).len(),
            lines_of(bytes@).len() <= bytes@.len(),
            ({
                let rest = tally_lines(
                    split_lines_from(
                        bytes@.skip(i as int),
                        bytes@.subrange(line_start as int, i as int),
                    ),
                    in_block,
                );
                comments + rest.comments == total.comments && blanks + rest.blanks == total.blanks
                    && code + rest.code == total.code
            }),
        decreases bytes@.len() - i,
    {
        let ghost cur = bytes@.subrange(line_start as int, i as int);
        let ghost rest0 = bytes@.skip(i as int);
        let b = bytes[i];
        if b == NL {
            let (kind, nb) = classify_line(bytes, line_start, i, in_block);
            proof {
                let tail_lines = split_lines_from(bytes@.skip(i + 1), Seq::empty());
                assert(rest0[0] == NL);
                assert(rest0.drop_first() =~= bytes@.skip(i + 1));
                let whole = split_lines_from(rest0, cur);
                assert(whole == seq![cur] + tail_lines);
                assert(whole[0] == cur);
                assert(whole.drop_first() =~= tail_lines);
                lemma_tally_nonneg(tail_lines, block_after(trimmed(cur), in_block));
                lemma_tally_nonneg(whole, in_block);
            }
            match kind {
                LineKind::Comment => {
                    comments = comments + 1;
                },
                LineKind::Blank => {
                    blanks = blanks + 1;
                },
                LineKind::Code => {
                    code = code + 1;
                },
            }
            in_block = nb;
            line_start = i + 1;
            proof {
                assert(bytes@.subrange(line_start as int, line_start as int) =~= Seq::<
                    u8,
                >::empty());
            }
        } else {
            proof {
                assert(rest0[0] == bytes@[i as int]);
                assert(rest0.drop_first() =~= bytes@.skip(i + 1));
                assert(cur.push(bytes@[i as int]) =~= bytes@.subrange(
                    line_start as int,
                    i + 1,
                ));
            }
        }
        i = i + 1;
    }
    let ghost cur = bytes@.subrange(line_start as int, bytes@.len() as int);
    proof {
        assert(bytes@.skip(i as int) =~= Seq::<u8>::empty());
        if line_start == i {
            assert(cur.len() == 0);
            assert(split_lines_from(Seq::<u8>::empty(), cur) =~= Seq::<Seq<u8>>::empty());
            assert(tally_lines(Seq::<Seq<u8>>::empty(), in_block) == tally_zero());
        }
    }
    if line_start < bytes.len() {
        let (kind, _nb) = classify_line(bytes, line_start, bytes.len(), in_block);
        proof {
            let whole = split_lines_from(Seq::<u8>::empty(), cur);
            assert(whole == seq![cur]);
            assert(whole[0] == cur);
            assert(whole.drop_first() =~= Seq::<Seq<u8>>::empty());
            let nb = block_after(trimmed(cur), in_block);
            assert(tally_lines(Seq::<Seq<u8>>::empty(), nb) == tally_zero());
            assert(tally_lines(whole, in_block) == tally_line(
                tally_zero(),
                line_kind(trimmed(cur), in_block),
            ));
        }
        match kind {
            LineKind::Comment => {
                comments = comments + 1;
            },
            LineKind::Blank => {
                blanks = blanks + 1;
            },
            LineKind::Code => {
                code = code + 1;
            },
        }
    }
    let r = FileInfo {
        comments_count: comments,
        blank_spaces_count: blanks,
        lines_of_code: code,
        nums_of_files: 1,
    };
    proof {
        assert(r =~= file_stat_of(bytes@));
    }
    r
}

} // verus!
