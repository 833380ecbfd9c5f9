//! The control files: the gitignore pattern list and the README document.
//!
//! A gitignore line that is neither blank nor a comment is translated into
//! an anchored regular-expression source string; lines whose translation
//! does not compile are dropped. The README is spliced between the sentinel
//! header `# Repo map` with an opening code fence and a `::` line with the
//! closing fence.

use vstd::prelude::*;

use crate::adapters::{FileSystem, FsError};
use crate::domain::RetCode;
use crate::regexes::{regex_compiles, regex_new_ok};
use crate::text::{chars_to_string, eq_chars, string_to_chars};

verus! {

/// The basename the README file must carry.
pub open spec fn readme_basename() -> Seq<char> {
    seq!['R', 'E', 'A', 'D', 'M', 'E', '.', 'm', 'd']
}

/// The basename the gitignore file must carry.
pub open spec fn gitignore_basename() -> Seq<char> {
    seq!['.', 'g', 'i', 't', 'i', 'g', 'n', 'o', 'r', 'e']
}

/// What parsing a control file yields: the wrong basename is rejected
/// before any read; a failed read of a well-named file is a parse failure;
/// otherwise the file's text.
pub open spec fn spec_parse_file(
    files: Map<Seq<char>, Seq<char>>,
    path: Seq<char>,
    expected: Seq<char>,
) -> Result<Seq<char>, RetCode> {
    if crate::paths::path_file_name(path) != Some(expected) {
        Err(RetCode::InvalidFilename)
    } else if !files.contains_key(path) {
        Err(RetCode::FailedParsingFile)
    } else {
        Ok(files[path])
    }
}

/// The README basename as characters.
pub(crate) fn readme_name_chars() -> (r: Vec<char>)
    ensures
        r@ == readme_basename(),
{
    let mut r: Vec<char> = Vec::new();
    r.push('R');
    r.push('E');
    r.push('A');
    r.push('D');
    r.push('M');
    r.push('E');
    r.push('.');
    r.push('m');
    r.push('d');
    proof {
        assert(r@ =~= readme_basename());
    }
    r
}

/// The gitignore basename as characters.
pub(crate) fn gitignore_name_chars() -> (r: Vec<char>)
    ensures
        r@ == gitignore_basename(),
{
    let mut r: Vec<char> = Vec::new();
    r.push('.');
    r.push('g');
    r.push('i');
    r.push('t');
    r.push('i');
    r.push('g');
    r.push('n');
    r.push('o');
    r.push('r');
    r.push('e');
    proof {
        assert(r@ =~= gitignore_basename());
    }
    r
}

/// Checks the path's basename against `expected` and reads the file.
fn parse_file_text<FS: FileSystem>(file_sys: &mut FS, path: &str, expected: &Vec<char>) -> (r:
    Result<String, RetCode>)
    ensures
        final(file_sys).files() == old(file_sys).files(),
        forall|rt: Seq<char>| final(file_sys).listing(rt) == old(file_sys).listing(rt),
        match r {
            Ok(s) => spec_parse_file(old(file_sys).files(), path@, expected@) == Ok::<
                Seq<char>,
                RetCode,
            >(s@),
            Err(e) => spec_parse_file(old(file_sys).files(), path@, expected@) == Err::<
                Seq<char>,
                RetCode,
            >(e),
        },
{
    let pchars = string_to_chars(path);
    let segs = crate::paths::split_chars(&pchars);
    if segs.len() == 0 {
        return Err(RetCode::InvalidFilename);
    }
    let last = &segs[segs.len() - 1];
    proof {
        assert(crate::paths::seq_views(segs@).last() == segs@[segs@.len() - 1]@);
    }
    if !eq_chars(last, expected) {
        return Err(RetCode::InvalidFilename);
    }
    match file_sys.read_to_string(path) {
        Ok(s) => Ok(s),
        Err(_) => Err(RetCode::FailedParsingFile),
    }
}

/// The lines of `s` split on `\n`, each shorn of a trailing `\r`, with no
/// line for a trailing newline; `cur` is the line accumulated so far.
pub open spec fn lines_loop(s: Seq<char>, cur: Seq<char>) -> Seq<Seq<char>>
    decreases s.len(),
{
    if s.len() == 0 {
        if cur.len() == 0 {
            Seq::empty()
        } else {
            seq![strip_cr(cur)]
        }
    } else if s[0] == '\n' {
        seq![strip_cr(cur)] + lines_loop(s.drop_first(), Seq::empty())
    } else {
        lines_loop(s.drop_first(), cur.push(s[0]))
    }
}

/// A line without its trailing carriage return, if it carries one.
pub open spec fn strip_cr(line: Seq<char>) -> Seq<char> {
    if line.len() > 0 && line.last() == '\r' {
        line.drop_last()
    } else {
        line
    }
}

/// The lines of a text.
pub open spec fn spec_lines(s: Seq<char>) -> Seq<Seq<char>> {
    lines_loop(s, Seq::empty())
}

/// Splits a character vector into its lines.
#[verifier::loop_isolation(false)]
pub fn split_lines(text: &Vec<char>) -> (r: Vec<Vec<char>>)
    ensures
        crate::paths::seq_views(r@) == spec_lines(text@),
{
    let mut r: Vec<Vec<char>> = Vec::new();
    let mut cur: Vec<char> = Vec::new();
    let mut i: usize = 0;
    proof {
        assert(text@.subrange(0, text@.len() as int) =~= text@);
        assert(crate::paths::seq_views(r@) + lines_loop(text@, cur@) =~= spec_lines(text@));
    }
    while i < text.len()
        invariant
            i <= text.len(),
            spec_lines(text@) == crate::paths::seq_views(r@) + lines_loop(
                text@.subrange(i as int, text@.len() as int),
                cur@,
            ),
        decreases text.len() - i,
    {
        let ghost rest = text@.subrange(i as int, text@.len() as int);
        proof {
            assert(rest[0] == text@[i as int]);
            assert(rest.drop_first() =~= text@.subrange(i + 1 as int, text@.len() as int));
        }
        if text[i] == '\n' {
            let ghost old_r = r@;
            let ghost old_cur = cur@;
            if cur.len() > 0 && cur[cur.len() - 1] == '\r' {
                cur.pop();
                proof {
                    assert(cur@ =~= strip_cr(old_cur));
                }
            }
            proof {
                assert(cur@ == strip_cr(old_cur));
            }
            r.push(cur);
            cur = Vec::new();
            proof {
                assert(cur@ =~= Seq::<char>::empty());
                assert(crate::paths::seq_views(r@) =~= crate::paths::seq_views(old_r).push(
                    strip_cr(old_cur),
                ));
                assert(crate::paths::seq_views(old_r) + lines_loop(rest, old_cur)
                    =~= crate::paths::seq_views(r@) + lines_loop(rest.drop_first(), cur@));
            }
        } else {
            let ghost old_cur = cur@;
            cur.push(text[i]);
            proof {
                assert(lines_loop(rest, old_cur) == lines_loop(rest.drop_first(), cur@));
            }
        }
        i += 1;
    }
    proof {
        assert(text@.subrange(text@.len() as int, text@.len() as int) =~= Seq::<char>::empty());
    }
    if cur.len() > 0 {
        let ghost old_r = r@;
        let ghost old_cur = cur@;
        if cur[cur.len() - 1] == '\r' {
            cur.pop();
            proof {
                assert(cur@ =~= strip_cr(old_cur));
            }
        }
        r.push(cur);
        proof {
            assert(crate::paths::seq_views(r@) =~= crate::paths::seq_views(old_r).push(
                strip_cr(old_cur),
            ));
        }
    } else {
        proof {
            assert(crate::paths::seq_views(r@) + lines_loop(Seq::empty(), cur@)
                =~= crate::paths::seq_views(r@));
        }
    }
    r
}

/// The ASCII whitespace characters; blank lines hold only these.
pub open spec fn is_space(c: char) -> bool {
    c == ' ' || c == '\t' || c == '\n' || c == '\r' || c == '\u{B}' || c == '\u{C}'
}

/// A line of whitespace alone.
pub open spec fn is_blank(line: Seq<char>) -> bool {
    forall|i: int| 0 <= i < line.len() ==> is_space(#[trigger] line[i])
}

/// A line is translated unless it is blank or starts a comment.
pub open spec fn line_eligible(line: Seq<char>) -> bool {
    !is_blank(line) && !(line.len() > 0 && line[0] == '#')
}

/// What one pattern character contributes to the regular expression: `*`
/// becomes any run of non-separators, `?` one arbitrary character, `.` a
/// literal dot; anything else is copied.
pub open spec fn char_translation(c: char) -> Seq<char> {
    if c == '*' {
        seq!['[', '^', '/', ']', '*']
    } else if c == '?' {
        seq!['.']
    } else if c == '.' {
        seq!['\\', '.']
    } else {
        seq![c]
    }
}

/// The translated pattern body, character by character.
pub open spec fn translate_body(p: Seq<char>) -> Seq<char>
    decreases p.len(),
{
    if p.len() == 0 {
        Seq::empty()
    } else {
        translate_body(p.drop_last()) + char_translation(p.last())
    }
}

/// The full translation of one pattern line: anchored to the start or to a
/// separator, and at the end either closed, or opened over everything
/// beneath when the line names a directory.
pub open spec fn spec_translate(p: Seq<char>) -> Seq<char> {
    seq!['(', '^', '|', '/', ')'] + translate_body(p) + if p.len() > 0 && p.last() == '/' {
        seq!['(', '.', '*', ')', '?', '$']
    } else {
        seq!['$']
    }
}

/// Translates one pattern line into regular-expression source characters.
#[verifier::loop_isolation(false)]
fn translate_line(line: &Vec<char>) -> (r: Vec<char>)
    ensures
        r@ == spec_translate(line@),
{
    let mut r: Vec<char> = Vec::new();
    r.push('(');
    r.push('^');
    r.push('|');
    r.push('/');
    r.push(')');
    proof {
        assert(r@ =~= seq!['(', '^', '|', '/', ')']);
        assert(line@.subrange(0, 0) =~= Seq::<char>::empty());
        assert(r@ =~= seq!['(', '^', '|', '/', ')'] + translate_body(line@.subrange(0, 0)));
    }
    let mut i: usize = 0;
    while i < line.len()
        invariant
            i <= line.len(),
            r@ == seq!['(', '^', '|', '/', ')'] + translate_body(line@.subrange(0, i as int)),
        decreases line.len() - i,
    {
        let c = line[i];
        if c == '*' {
            r.push('[');
            r.push('^');
            r.push('/');
            r.push(']');
            r.push('*');
        } else if c == '?' {
            r.push('.');
        } else if c == '.' {
            r.push('\\');
            r.push('.');
        } else {
            r.push(c);
        }
        i += 1;
        proof {
            let pre = line@.subrange(0, i as int);
            assert(pre.drop_last() =~= line@.subrange(0, i - 1));
            assert(pre.last() == line@[i - 1]);
            assert(r@ =~= seq!['(', '^', '|', '/', ')'] + translate_body(pre));
        }
    }
    proof {
        assert(line@.subrange(0, line@.len() as int) =~= line@);
    }
    if line.len() > 0 && line[line.len() - 1] == '/' {
        r.push('(');
        r.push('.');
        r.push('*');
        r.push(')');
        r.push('?');
        r.push('$');
        proof {
            assert(r@ =~= spec_translate(line@));
        }
    } else {
        r.push('$');
        proof {
            assert(r@ =~= spec_translate(line@));
        }
    }
    r
}

/// Whether a line holds only whitespace.
fn is_blank_exec(line: &Vec<char>) -> (r: bool)
    ensures
        r == is_blank(line@),
{
    let mut i: usize = 0;
    while i < line.len()
        invariant
            i <= line.len(),
            forall|k: int| 0 <= k < i ==> is_space(#[trigger] line@[k]),
        decreases line.len() - i,
    {
        let c = line[i];
        if !(c == ' ' || c == '\t' || c == '\n' || c == '\r' || c == '\u{B}' || c == '\u{C}') {
            proof {
                assert(!is_space(line@[i as int]));
            }
            return false;
        }
        i += 1;
    }
    true
}

/// The compiled translations, in order, of the eligible lines.
pub open spec fn spec_translations(lines: Seq<Seq<char>>) -> Seq<Seq<char>>
    decreases lines.len(),
{
    if lines.len() == 0 {
        Seq::empty()
    } else {
        spec_translations(lines.drop_last()) + if line_eligible(lines.last()) && regex_compiles(
            spec_translate(lines.last()),
        ) {
            seq![spec_translate(lines.last())]
        } else {
            Seq::empty()
        }
    }
}

/// What `parse_lines` yields from a gitignore text.
pub open spec fn spec_parse_lines(text: Seq<char>) -> Seq<Seq<char>> {
    spec_translations(spec_lines(text))
}

/// The sentinel that opens a rendered block: the header line and the
/// opening code fence.
pub open spec fn block_header() -> Seq<char> {
    seq!['#', ' ', 'R', 'e', 'p', 'o', ' ', 'm', 'a', 'p', '\n', '`', '`', '`']
}

/// The sentinel that closes a rendered block: the `::` line and the closing
/// code fence.
pub open spec fn block_terminator() -> Seq<char> {
    seq![':', ':', '\n', '`', '`', '`']
}

/// The header sentinel stands at `i`, at the start of a line.
pub open spec fn header_at(doc: Seq<char>, i: int) -> bool {
    &&& 0 <= i
    &&& i + 14 <= doc.len()
    &&& (i == 0 || doc[i - 1] == '\n')
    &&& doc.subrange(i, i + 14) == block_header()
}

/// The terminator sentinel stands at `p`, at the start of a line.
pub open spec fn end_at(doc: Seq<char>, p: int) -> bool {
    &&& 1 <= p
    &&& p + 6 <= doc.len()
    &&& doc[p - 1] == '\n'
    &&& doc.subrange(p, p + 6) == block_terminator()
}

/// The first header position at or after `k`, or `-1`.
pub open spec fn find_header_from(doc: Seq<char>, k: int) -> int
    decreases doc.len() - k,
{
    if k + 14 > doc.len() {
        -1
    } else if header_at(doc, k) {
        k
    } else {
        find_header_from(doc, k + 1)
    }
}

/// The first terminator position at or after `k`, or `-1`.
pub open spec fn find_end_from(doc: Seq<char>, k: int) -> int
    decreases doc.len() - k,
{
    if k + 6 > doc.len() {
        -1
    } else if end_at(doc, k) {
        k
    } else {
        find_end_from(doc, k + 1)
    }
}

/// The spliced document: the first delimited block — from the first header
/// that a terminator follows, through that terminator — replaced by
/// `block`; or, when no such block exists, the document with `block`
/// appended after a blank line.
pub open spec fn spec_update(doc: Seq<char>, block: Seq<char>) -> Seq<char> {
    let i = find_header_from(doc, 0);
    let p = if i >= 0 {
        find_end_from(doc, i + 14)
    } else {
        -1
    };
    if i >= 0 && p >= 0 {
        doc.subrange(0, i) + block + doc.subrange(p + 6, doc.len() as int)
    } else {
        doc + seq!['\n', '\n'] + block
    }
}

/// Whether `pat` stands at `at` in `doc`.
fn subrange_eq(doc: &Vec<char>, at: usize, pat: &Vec<char>) -> (r: bool)
    requires
        at + pat@.len() <= doc@.len(),
    ensures
        r == (doc@.subrange(at as int, at + pat@.len()) == pat@),
{
    let dl = doc.len();
    let mut k: usize = 0;
    while k < pat.len()
        invariant
            k <= pat@.len(),
            at + pat@.len() <= doc@.len(),
            doc@.len() == dl,
            forall|j: int| 0 <= j < k ==> doc@[at + j] == pat@[j],
        decreases pat.len() - k,
    {
        if doc[at + k] != pat[k] {
            proof {
                let sub = doc@.subrange(at as int, at + pat@.len());
                assert(sub[k as int] == doc@[at + k]);
            }
            return false;
        }
        k += 1;
    }
    proof {
        assert(doc@.subrange(at as int, at + pat@.len()) =~= pat@);
    }
    true
}

/// The header sentinel as characters.
pub(crate) fn header_chars() -> (r: Vec<char>)
    ensures
        r@ == block_header(),
{
    let mut r: Vec<char> = Vec::new();
    r.push('#');
    r.push(' ');
    r.push('R');
    r.push('e');
    r.push('p');
    r.push('o');
    r.push(' ');
    r.push('m');
    r.push('a');
    r.push('p');
    r.push('\n');
    r.push('`');
    r.push('`');
    r.push('`');
    proof {
        assert(r@ =~= block_header());
    }
    r
}

/// The terminator sentinel as characters.
pub(crate) fn terminator_chars() -> (r: Vec<char>)
    ensures
        r@ == block_terminator(),
{
    let mut r: Vec<char> = Vec::new();
    r.push(':');
    r.push(':');
    r.push('\n');
    r.push('`');
    r.push('`');
    r.push('`');
    proof {
        assert(r@ =~= block_terminator());
    }
    r
}

/// Finds the first header position in `doc`.
#[verifier::loop_isolation(false)]
fn find_header(doc: &Vec<char>) -> (r: Option<usize>)
    ensures
        match r {
            Some(i) => find_header_from(doc@, 0) == i as int,
            None => find_header_from(doc@, 0) == -1,
        },
{
    let hdr = header_chars();
    if doc.len() < 14 {
        return None;
    }
    let mut i: usize = 0;
    while i <= doc.len() - 14
        invariant
            i <= doc@.len() - 14 + 1,
            find_header_from(doc@, 0) == find_header_from(doc@, i as int),
        decreases doc.len() - i,
    {
        let line_start = i == 0 || doc[i - 1] == '\n';
        if line_start && subrange_eq(doc, i, &hdr) {
            proof {
                assert(header_at(doc@, i as int));
            }
            return Some(i);
        }
        proof {
            assert(!header_at(doc@, i as int));
        }
        i += 1;
    }
    None
}

/// Finds the first terminator position at or after `from`.
#[verifier::loop_isolation(false)]
fn find_end(doc: &Vec<char>, from: usize) -> (r: Option<usize>)
    requires
        from >= 1,
    ensures
        match r {
            Some(p) => find_end_from(doc@, from as int) == p as int,
            None => find_end_from(doc@, from as int) == -1,
        },
{
    let term = terminator_chars();
    if doc.len() < 6 || from > doc.len() - 6 {
        return None;
    }
    let mut i: usize = from;
    while i <= doc.len() - 6
        invariant
            from <= i <= doc@.len() - 6 + 1,
            find_end_from(doc@, from as int) == find_end_from(doc@, i as int),
        decreases doc.len() - i,
    {
        if doc[i - 1] == '\n' && subrange_eq(doc, i, &term) {
            proof {
                assert(end_at(doc@, i as int));
            }
            return Some(i);
        }
        proof {
            assert(!end_at(doc@, i as int));
        }
        i += 1;
    }
    None
}

/// Appends `src[from..to]` to `out`.
fn push_range(out: &mut Vec<char>, src: &Vec<char>, from: usize, to: usize)
    requires
        from <= to <= src@.len(),
    ensures
        final(out)@ == old(out)@ + src@.subrange(from as int, to as int),
{
    let mut k: usize = from;
    proof {
        assert(out@ =~= out@ + src@.subrange(from as int, from as int));
    }
    while k < to
        invariant
            from <= k <= to <= src@.len(),
            out@ == old(out)@ + src@.subrange(from as int, k as int),
        decreases to - k,
    {
        out.push(src[k]);
        k += 1;
        proof {
            assert(out@ =~= old(out)@ + src@.subrange(from as int, k as int));
        }
    }
}

/// What `find_header_from` finds: the first header at or after `k`, and
/// nothing earlier.
pub proof fn lemma_find_header_props(doc: Seq<char>, k: int)
    ensures
        find_header_from(doc, k) == -1 || find_header_from(doc, k) >= k,
        find_header_from(doc, k) == -1 ==> forall|j: int| k <= j ==> !header_at(doc, j),
        find_header_from(doc, k) >= 0 ==> k <= find_header_from(doc, k) && header_at(
            doc,
            find_header_from(doc, k),
        ) && forall|j: int| k <= j < find_header_from(doc, k) ==> !header_at(doc, j),
    decreases doc.len() - k,
{
    if k + 14 > doc.len() {
        assert forall|j: int| k <= j implies !header_at(doc, j) by {
            assert(j + 14 > doc.len());
        }
    } else if header_at(doc, k) {
    } else {
        lemma_find_header_props(doc, k + 1);
    }
}

/// What `find_end_from` finds: the first terminator at or after `k`, and
/// nothing earlier.
pub proof fn lemma_find_end_props(doc: Seq<char>, k: int)
    ensures
        find_end_from(doc, k) == -1 || find_end_from(doc, k) >= k,
        find_end_from(doc, k) == -1 ==> forall|j: int| k <= j ==> !end_at(doc, j),
        find_end_from(doc, k) >= 0 ==> k <= find_end_from(doc, k) && end_at(
            doc,
            find_end_from(doc, k),
        ) && forall|j: int| k <= j < find_end_from(doc, k) ==> !end_at(doc, j),
    decreases doc.len() - k,
{
    if k + 6 > doc.len() {
        assert forall|j: int| k <= j implies !end_at(doc, j) by {
            assert(j + 6 > doc.len());
        }
    } else if end_at(doc, k) {
    } else {
        lemma_find_end_props(doc, k + 1);
    }
}

/// A block the splice can recognise again: it opens with the header at its
/// start, closes with the terminator, and holds no earlier terminator the
/// search could stop at.
pub open spec fn wf_block(block: Seq<char>) -> bool {
    &&& block.len() >= 22
    &&& header_at(block, 0)
    &&& end_at(block, block.len() - 6)
    &&& find_end_from(block, 14) == block.len() - 6
}

/// Where the sentinel characters sit inside the two sentinels.
pub(crate) proof fn lemma_sentinel_chars()
    ensures
        block_header().len() == 14,
        block_header()[0] == '#',
        block_header()[10] == '\n',
        block_header()[11] == '`',
        forall|m: int| 1 <= m < 14 ==> block_header()[m] != '#',
        forall|m: int| 0 <= m < 14 && m != 10 ==> block_header()[m] != '\n',
        block_terminator().len() == 6,
        block_terminator()[0] == ':',
{
    assert(block_header()[0] == '#');
    assert(block_header()[1] == ' ');
    assert(block_header()[2] == 'R');
    assert(block_header()[3] == 'e');
    assert(block_header()[4] == 'p');
    assert(block_header()[5] == 'o');
    assert(block_header()[6] == ' ');
    assert(block_header()[7] == 'm');
    assert(block_header()[8] == 'a');
    assert(block_header()[9] == 'p');
    assert(block_header()[10] == '\n');
    assert(block_header()[11] == '`');
    assert(block_header()[12] == '`');
    assert(block_header()[13] == '`');
    assert(block_terminator()[0] == ':');
}

/// The first header is `i` when a header stands there and none earlier.
pub(crate) proof fn lemma_find_header_is(doc: Seq<char>, i: int)
    requires
        0 <= i,
        header_at(doc, i),
        forall|k: int| 0 <= k < i ==> !header_at(doc, k),
    ensures
        find_header_from(doc, 0) == i,
{
    lemma_find_header_props(doc, 0);
    let r = find_header_from(doc, 0);
    if r == -1 {
        assert(!header_at(doc, i));
        assert(false);
    } else if r < i {
        assert(0 <= r < i);
        assert(header_at(doc, r));
        assert(!header_at(doc, r));
        assert(false);
    } else if r > i {
        assert(!header_at(doc, i));
        assert(false);
    }
}

/// The first terminator at or after `from` is `p` when one stands there
/// and none earlier.
pub(crate) proof fn lemma_find_end_is(doc: Seq<char>, from: int, p: int)
    requires
        0 <= from <= p,
        end_at(doc, p),
        forall|q: int| from <= q < p ==> !end_at(doc, q),
    ensures
        find_end_from(doc, from) == p,
{
    lemma_find_end_props(doc, from);
    let r = find_end_from(doc, from);
    if r == -1 {
        assert(!end_at(doc, p));
        assert(false);
    } else if r < p {
        assert(from <= r < p);
        assert(end_at(doc, r));
        assert(!end_at(doc, r));
        assert(false);
    } else if r > p {
        assert(!end_at(doc, p));
        assert(false);
    }
}

/// Inside a document of the shape `pre + block + post`, with the block at
/// a line start and no header inside `pre`, the splice finds exactly the
/// block.
proof fn lemma_match_in_assembled(pre: Seq<char>, block: Seq<char>, post: Seq<char>)
    requires
        wf_block(block),
        pre.len() == 0 || pre.last() == '\n',
        forall|k: int| 0 <= k < pre.len() ==> !header_at(pre + block + post, k),
    ensures
        find_header_from(pre + block + post, 0) == pre.len() as int,
        find_end_from(pre + block + post, pre.len() + 14 as int) == pre.len() + block.len()
            - 6,
        spec_update(pre + block + post, block) == pre + block + post,
{
    let doc = pre + block + post;
    let i = pre.len() as int;
    let blen = block.len() as int;
    lemma_sentinel_chars();
    assert forall|m: int| 0 <= m < blen implies doc[i + m] == block[m] by {}
    // The block's own header opens a line.
    assert(header_at(doc, i)) by {
        assert(doc.subrange(i, i + 14) =~= block.subrange(0, 14));
        if i > 0 {
            assert(doc[i - 1] == pre.last());
        }
    }
    lemma_find_header_is(doc, i);
    // The block's own terminator is the first one after its header.
    assert(end_at(doc, i + blen - 6)) by {
        assert(doc.subrange(i + blen - 6, i + blen) =~= block.subrange(blen - 6, blen));
        assert(doc[i + blen - 7] == block[blen - 7]);
    }
    lemma_find_end_props(block, 14);
    assert forall|q: int| i + 14 <= q < i + blen - 6 implies !end_at(doc, q) by {
        if end_at(doc, q) {
            assert(end_at(block, q - i)) by {
                assert(block.subrange(q - i, q - i + 6) =~= doc.subrange(q, q + 6));
                assert(block[q - i - 1] == doc[q - 1]);
            }
        }
    }
    lemma_find_end_is(doc, i + 14, i + blen - 6);
    assert(doc.subrange(0, i) =~= pre);
    assert(doc.subrange(i + blen - 6 + 6, doc.len() as int) =~= post);
    assert(spec_update(doc, block) == pre + block + post);
}

/// Splicing a well-formed block is idempotent: once a document holds the
/// block, splicing the same block again changes nothing. The one family of
/// documents left out: those holding a header line that no terminator ever
/// follows, where the first splice swallows text from the header to the
/// block it appends.
pub proof fn lemma_update_idempotent(doc: Seq<char>, block: Seq<char>)
    requires
        wf_block(block),
        find_header_from(doc, 0) >= 0 ==> find_end_from(doc, find_header_from(doc, 0) + 14)
            >= 0,
    ensures
        spec_update(spec_update(doc, block), block) == spec_update(doc, block),
{
    lemma_sentinel_chars();
    let i = find_header_from(doc, 0);
    lemma_find_header_props(doc, 0);
    if i >= 0 {
        let p = find_end_from(doc, i + 14);
        assert(p >= 0);
        lemma_find_end_props(doc, i + 14);
        let pre = doc.subrange(0, i);
        let post = doc.subrange(p + 6, doc.len() as int);
        let doc2 = pre + block + post;
        assert(spec_update(doc, block) == doc2);
        assert forall|k: int| 0 <= k < pre.len() implies !header_at(doc2, k) by {
            if header_at(doc2, k) {
                if k + 14 <= i {
                    // Entirely inside `pre`: the same header would stand in
                    // the original document before its first.
                    assert(header_at(doc, k)) by {
                        assert(doc.subrange(k, k + 14) =~= doc2.subrange(k, k + 14));
                        if k > 0 {
                            assert(doc[k - 1] == pre[k - 1]);
                            assert(doc2[k - 1] == pre[k - 1]);
                        }
                    }
                } else {
                    // Spans into the block: the block's opening `#` would
                    // have to appear inside the header's tail.
                    assert(doc2.subrange(k, k + 14)[i - k] == doc2[i]);
                    assert(doc2[i] == block[0]);
                    assert(block.subrange(0, 14)[0] == block[0]);
                    assert(block_header()[i - k] == '#');
                }
            }
        }
        lemma_match_in_assembled(pre, block, post);
        if i > 0 {
            assert(pre.last() == doc[i - 1]);
        }
    } else {
        let pre = doc + seq!['\n', '\n'];
        let doc2 = pre + block + Seq::<char>::empty();
        assert(spec_update(doc, block) =~= doc2);
        assert(spec_update(doc, block) == doc2);
        let dlen = doc.len() as int;
        assert forall|k: int| 0 <= k < pre.len() implies !header_at(doc2, k) by {
            if header_at(doc2, k) {
                if k + 14 <= dlen {
                    assert(header_at(doc, k)) by {
                        assert(doc.subrange(k, k + 14) =~= doc2.subrange(k, k + 14));
                        if k > 0 {
                            assert(doc[k - 1] == doc2[k - 1]);
                        }
                    }
                } else if k < dlen {
                    // The window would cover the inserted blank line: the
                    // header holds no two adjacent newlines.
                    assert(doc2.subrange(k, k + 14)[dlen - k] == doc2[dlen]);
                    assert(doc2[dlen] == '\n');
                    assert(block_header()[dlen - k] == '\n');
                    assert(dlen - k == 10);
                    assert(doc2.subrange(k, k + 14)[11] == doc2[k + 11]);
                    assert(doc2[dlen + 1] == '\n');
                    assert(block_header()[11] == '\n');
                } else {
                    // Starting on the blank line itself: a header opens
                    // with `#`, not a newline.
                    assert(doc2.subrange(k, k + 14)[0] == doc2[k]);
                    assert(doc2[k] == '\n');
                    assert(block_header()[0] == '\n');
                }
            }
        }
        assert(pre.last() == '\n');
        lemma_match_in_assembled(pre, block, Seq::<char>::empty());
    }
}

/// The README document's text.
#[derive(Debug)]
pub struct ReadMe {
    pub text: String,
}

impl PartialEq for ReadMe {
    /// Two README values are equal when their texts are.
    fn eq(&self, other: &ReadMe) -> (r: bool) {
        self.text == other.text
    }
}

impl vstd::std_specs::cmp::PartialEqSpecImpl for ReadMe {
    open spec fn obeys_eq_spec() -> bool {
        true
    }

    open spec fn eq_spec(&self, other: &ReadMe) -> bool {
        self.text@ == other.text@
    }
}

impl ReadMe {
    /// Wraps a README text.
    pub fn from_string(s: String) -> (r: ReadMe)
        ensures
            r.text@ == s@,
    {
        ReadMe { text: s }
    }

    /// Checks the basename and reads the README file.
    pub fn parse<FS: FileSystem>(file_sys: &mut FS, path: &str) -> (r: Result<ReadMe, RetCode>)
        ensures
            final(file_sys).files() == old(file_sys).files(),
            forall|rt: Seq<char>| final(file_sys).listing(rt) == old(file_sys).listing(rt),
            match r {
                Ok(m) => spec_parse_file(old(file_sys).files(), path@, readme_basename())
                    == Ok::<Seq<char>, RetCode>(m.text@),
                Err(e) => spec_parse_file(old(file_sys).files(), path@, readme_basename())
                    == Err::<Seq<char>, RetCode>(e),
            },
    {
        let expected = readme_name_chars();
        match parse_file_text(file_sys, path, &expected) {
            Ok(s) => Ok(ReadMe::from_string(s)),
            Err(e) => Err(e),
        }
    }

    /// Writes this text out under the given path.
    pub fn write<FS: FileSystem>(&self, file_sys: &mut FS, path: &str) -> (r: Result<
        (),
        FsError,
    >)
        ensures
            r is Ok ==> final(file_sys).files() == old(file_sys).files().insert(
                path@,
                self.text@,
            ),
            r is Ok && old(file_sys).files().contains_key(path@) ==> forall|rt: Seq<char>|
                final(file_sys).listing(rt) == old(file_sys).listing(rt),
            r is Err ==> final(file_sys).files() == old(file_sys).files() && forall|
                rt: Seq<char>,
            |
                final(file_sys).listing(rt) == old(file_sys).listing(rt),
    {
        file_sys.write(path, self.text.as_str())
    }

    /// Splices the rendered block into the document: replaces the first
    /// delimited block, or appends after a blank line when none exists.
    pub fn update_readme(&self, repo_map: String) -> (r: ReadMe)
        ensures
            r.text@ == spec_update(self.text@, repo_map@),
    {
        let doc = string_to_chars(self.text.as_str());
        let map_chars = string_to_chars(repo_map.as_str());
        let doc_len = doc.len();
        proof {
            assert(doc@.len() == doc_len);
        }
        let mut out: Vec<char> = Vec::new();
        let mut replaced = false;
        match find_header(&doc) {
            Some(i) => {
                proof {
                    lemma_find_header_props(doc@, 0);
                    assert(header_at(doc@, i as int));
                    assert(i + 14 <= doc@.len());
                }
                match find_end(&doc, i + 14) {
                    Some(p) => {
                        proof {
                            lemma_find_end_props(doc@, i + 14);
                        }
                        push_range(&mut out, &doc, 0, i);
                        push_range(&mut out, &map_chars, 0, map_chars.len());
                        push_range(&mut out, &doc, p + 6, doc.len());
                        proof {
                            assert(map_chars@.subrange(0, map_chars@.len() as int)
                                =~= repo_map@);
                            assert(out@ =~= spec_update(self.text@, repo_map@));
                        }
                        replaced = true;
                    },
                    None => {},
                }
            },
            None => {},
        }
        if !replaced {
            push_range(&mut out, &doc, 0, doc.len());
            out.push('\n');
            out.push('\n');
            push_range(&mut out, &map_chars, 0, map_chars.len());
            proof {
                assert(doc@.subrange(0, doc@.len() as int) =~= doc@);
                assert(map_chars@.subrange(0, map_chars@.len() as int) =~= repo_map@);
                assert(out@ =~= spec_update(self.text@, repo_map@));
            }
        }
        ReadMe { text: chars_to_string(&out) }
    }
}

/// A gitignore file's text.
#[derive(Debug)]
pub struct GitIgnore {
    pub text: String,
}

impl PartialEq for GitIgnore {
    /// Two gitignore values are equal when their texts are.
    fn eq(&self, other: &GitIgnore) -> (r: bool) {
        self.text == other.text
    }
}

impl vstd::std_specs::cmp::PartialEqSpecImpl for GitIgnore {
    open spec fn obeys_eq_spec() -> bool {
        true
    }

    open spec fn eq_spec(&self, other: &GitIgnore) -> bool {
        self.text@ == other.text@
    }
}

impl GitIgnore {
    /// Wraps a gitignore text.
    pub fn from_string(s: String) -> (r: GitIgnore)
        ensures
            r.text@ == s@,
    {
        GitIgnore { text: s }
    }

    /// Checks the basename and reads the gitignore file.
    pub fn parse<FS: FileSystem>(file_sys: &mut FS, path: &str) -> (r: Result<GitIgnore, RetCode>)
        ensures
            final(file_sys).files() == old(file_sys).files(),
            forall|rt: Seq<char>| final(file_sys).listing(rt) == old(file_sys).listing(rt),
            match r {
                Ok(g) => spec_parse_file(old(file_sys).files(), path@, gitignore_basename())
                    == Ok::<Seq<char>, RetCode>(g.text@),
                Err(e) => spec_parse_file(old(file_sys).files(), path@, gitignore_basename())
                    == Err::<Seq<char>, RetCode>(e),
            },
    {
        let expected = gitignore_name_chars();
        match parse_file_text(file_sys, path, &expected) {
            Ok(s) => Ok(GitIgnore::from_string(s)),
            Err(e) => Err(e),
        }
    }

    /// Translates each eligible line into an anchored regular-expression
    /// source string, keeping the ones that compile.
    #[verifier::loop_isolation(false)]
    pub fn parse_lines(&self) -> (r: Vec<String>)
        ensures
            r@.map_values(|s: String| s@) == spec_parse_lines(self.text@),
    {
        let ghost all = spec_lines(self.text@);
        let chars = string_to_chars(self.text.as_str());
        let lines = split_lines(&chars);
        let mut r: Vec<String> = Vec::new();
        let mut i: usize = 0;
        proof {
            assert(all.subrange(0, 0) =~= Seq::<Seq<char>>::empty());
            assert(r@.map_values(|s: String| s@) =~= spec_translations(all.subrange(0, 0)));
        }
        while i < lines.len()
            invariant
                i <= lines.len(),
                r@.map_values(|s: String| s@) == spec_translations(all.subrange(0, i as int)),
            decreases lines.len() - i,
        {
            let ghost before = r@.map_values(|s: String| s@);
            proof {
                assert(crate::paths::seq_views(lines@)[i as int] == lines@[i as int]@);
            }
            let line = &lines[i];
            let blank = is_blank_exec(line);
            let comment = line.len() > 0 && line[0] == '#';
            if !blank && !comment {
                let t = translate_line(line);
                let ts = chars_to_string(&t);
                if regex_new_ok(ts.as_str()) {
                    r.push(ts);
                    proof {
                        assert(r@.map_values(|s: String| s@) =~= before.push(
                            spec_translate(all[i as int]),
                        ));
                    }
                }
            }
            i += 1;
            proof {
                let pre = all.subrange(0, i as int);
                assert(pre.drop_last() =~= all.subrange(0, i - 1));
                assert(pre.last() == all[i - 1]);
                assert(r@.map_values(|s: String| s@) =~= spec_translations(pre));
            }
        }
        proof {
            assert(all.subrange(0, all.len() as int) =~= all);
        }
        r
    }
}

} // verus!
