//! The block-string dedent algorithm.
//!
//! The raw text of a block string is split into lines at `\n`; trailing `\r`
//! characters are dropped from each line. The common indentation of the lines
//! after the first, counting only ASCII spaces and tabs and ignoring blank
//! lines, is removed from each of them. Blank lines at the start and at the
//! end are dropped, and the lines are joined with `\n`. So dedenting only
//! takes spaces and tabs off the start of lines, apart from dropping blank
//! lines at the edges (`law_dedent_only_strips_indentation`).
use vstd::prelude::*;
use crate::text::{join, lemma_join_step};

verus! {

pub open spec fn is_blank_char(c: char) -> bool {
    c == ' ' || c == '\t'
}

/// The lines of `raw`, split at `\n`.
pub open spec fn split_lines(raw: Seq<char>) -> Seq<Seq<char>>
    decreases raw.len(),
{
    if raw.len() == 0 {
        seq![Seq::empty()]
    } else {
        let ls = split_lines(raw.drop_last());
        if raw.last() == '\n' {
            ls.push(Seq::empty())
        } else {
            ls.update(ls.len() - 1, ls.last().push(raw.last()))
        }
    }
}

/// A line without its trailing `\r` characters.
pub open spec fn trim_trailing_cr(l: Seq<char>) -> Seq<char>
    decreases l.len(),
{
    if l.len() > 0 && l.last() == '\r' {
        trim_trailing_cr(l.drop_last())
    } else {
        l
    }
}

/// The number of spaces and tabs at the start of a line.
pub open spec fn leading_blanks(l: Seq<char>) -> nat
    decreases l.len(),
{
    if l.len() > 0 && is_blank_char(l[0]) {
        1 + leading_blanks(l.drop_first())
    } else {
        0
    }
}

pub open spec fn is_blank_line(l: Seq<char>) -> bool {
    leading_blanks(l) == l.len()
}

/// The least indentation of the lines that are not blank, if there is one.
pub open spec fn min_indent(ls: Seq<Seq<char>>) -> Option<nat>
    decreases ls.len(),
{
    if ls.len() == 0 {
        None
    } else {
        let rest = min_indent(ls.drop_last());
        let l = ls.last();
        if is_blank_line(l) {
            rest
        } else {
            Some(
                match rest {
                    Some(c) => if c <= leading_blanks(l) {
                        c
                    } else {
                        leading_blanks(l)
                    },
                    None => leading_blanks(l),
                },
            )
        }
    }
}

/// The lines of the raw text, trailing `\r` removed.
pub open spec fn raw_lines(raw: Seq<char>) -> Seq<Seq<char>> {
    split_lines(raw).map_values(|l: Seq<char>| trim_trailing_cr(l))
}

/// The indentation removed from every line but the first.
pub open spec fn common_indent(lines: Seq<Seq<char>>) -> nat {
    match min_indent(lines.drop_first()) {
        Some(c) => c,
        None => 0,
    }
}

pub open spec fn dedent_line(l: Seq<char>, indent: nat) -> Seq<char> {
    if l.len() >= indent {
        l.skip(indent as int)
    } else {
        Seq::empty()
    }
}

pub open spec fn dedented_lines(lines: Seq<Seq<char>>) -> Seq<Seq<char>> {
    Seq::new(
        lines.len(),
        |i: int|
            if i == 0 {
                lines[0]
            } else {
                dedent_line(lines[i], common_indent(lines))
            },
    )
}

pub open spec fn drop_leading_blank(ls: Seq<Seq<char>>) -> Seq<Seq<char>>
    decreases ls.len(),
{
    if ls.len() > 0 && is_blank_line(ls[0]) {
        drop_leading_blank(ls.drop_first())
    } else {
        ls
    }
}

pub open spec fn drop_trailing_blank(ls: Seq<Seq<char>>) -> Seq<Seq<char>>
    decreases ls.len(),
{
    if ls.len() > 0 && is_blank_line(ls.last()) {
        drop_trailing_blank(ls.drop_last())
    } else {
        ls
    }
}

/// The value of a block string with raw text `raw`.
pub open spec fn dedent_spec(raw: Seq<char>) -> Seq<char> {
    join(
        drop_trailing_blank(drop_leading_blank(dedented_lines(raw_lines(raw)))),
        seq!['\n'],
    )
}

// ---------------------------------------------------------------------------
// Executable dedent
// ---------------------------------------------------------------------------

pub open spec fn lines_view(ls: Seq<Vec<char>>) -> Seq<Seq<char>> {
    ls.map_values(|l: Vec<char>| l@)
}

fn trim_cr(l: Vec<char>) -> (r: Vec<char>)
    ensures
        r@ == trim_trailing_cr(l@),
{
    let ghost l0 = l@;
    let mut l = l;
    while l.len() > 0 && l[l.len() - 1] == '\r'
        invariant
            trim_trailing_cr(l@) == trim_trailing_cr(l0),
        decreases l@.len(),
    {
        assert(l@.drop_last() =~= l@.take(l@.len() - 1));
        l.pop();
    }
    l
}

/// The number of spaces and tabs at the start of a line.
fn leading_blank_count(l: &Vec<char>) -> (r: usize)
    ensures
        r == leading_blanks(l@),
        r <= l@.len(),
{
    let mut i: usize = 0;
    assert(l@.skip(0) =~= l@);
    while i < l.len() && (l[i] == ' ' || l[i] == '\t')
        invariant
            i <= l@.len(),
            leading_blanks(l@) == i + leading_blanks(l@.skip(i as int)),
        decreases l@.len() - i,
    {
        assert(l@.skip(i as int).drop_first() =~= l@.skip(i + 1));
        i += 1;
    }
    i
}

fn is_blank(l: &Vec<char>) -> (r: bool)
    ensures
        r == is_blank_line(l@),
{
    leading_blank_count(l) == l.len()
}

/// The lines of the raw text, each without its trailing `\r` characters.
fn split_raw_lines(raw: &Vec<char>) -> (r: Vec<Vec<char>>)
    ensures
        lines_view(r@) == raw_lines(raw@),
        r@.len() >= 1,
{
    let mut done: Vec<Vec<char>> = Vec::new();
    let mut cur: Vec<char> = Vec::new();
    assert(raw@.take(0) =~= Seq::<char>::empty());
    for i in 0..raw.len()
        invariant
            split_lines(raw@.take(i as int)).len() == done@.len() + 1,
            forall|k: int|
                0 <= k < done@.len() ==> #[trigger] done@[k]@ == trim_trailing_cr(
                    split_lines(raw@.take(i as int))[k],
                ),
            cur@ == split_lines(raw@.take(i as int))[done@.len() as int],
    {
        assert(raw@.take(i + 1).drop_last() =~= raw@.take(i as int));
        let c = raw[i];
        if c == '\n' {
            let line = trim_cr(cur);
            done.push(line);
            cur = Vec::new();
        } else {
            cur.push(c);
        }
    }
    assert(raw@.take(raw@.len() as int) =~= raw@);
    let last = trim_cr(cur);
    done.push(last);
    assert(lines_view(done@) =~= raw_lines(raw@));
    done
}

/// The indentation removed from every line but the first.
fn common_indent_of(lines: &Vec<Vec<char>>) -> (r: usize)
    requires
        lines@.len() >= 1,
    ensures
        r == common_indent(lines_view(lines@)),
{
    let ghost tail = lines_view(lines@).drop_first();
    let mut ci: Option<usize> = None;
    assert(tail.take(0) =~= Seq::<Seq<char>>::empty());
    for k in 1..lines.len()
        invariant
            tail == lines_view(lines@).drop_first(),
            tail.len() + 1 == lines@.len(),
            match ci {
                Some(c) => min_indent(tail.take(k - 1)) == Some(c as nat),
                None => min_indent(tail.take(k - 1)) is None,
            },
    {
        assert(tail.take(k as int).drop_last() =~= tail.take(k - 1));
        assert(tail[k - 1] == lines@[k as int]@);
        let l = &lines[k];
        let indent = leading_blank_count(l);
        if indent < l.len() {
            ci = Some(
                match ci {
                    Some(c) => if c <= indent {
                        c
                    } else {
                        indent
                    },
                    None => indent,
                },
            );
        }
    }
    assert(tail.take(tail.len() as int) =~= tail);
    match ci {
        Some(c) => c,
        None => 0,
    }
}

/// The characters of `l` from `start` on.
fn copy_from(l: &Vec<char>, start: usize) -> (r: Vec<char>)
    requires
        start <= l@.len(),
    ensures
        r@ == l@.skip(start as int),
{
    let mut out: Vec<char> = Vec::new();
    let mut i = start;
    while i < l.len()
        invariant
            start <= i <= l@.len(),
            out@ == l@.subrange(start as int, i as int),
        decreases l@.len() - i,
    {
        out.push(l[i]);
        i += 1;
    }
    out
}

fn push_chars(out: &mut String, l: &Vec<char>)
    ensures
        final(out)@ == old(out)@ + l@,
{
    let ghost start = out@;
    let mut i: usize = 0;
    while i < l.len()
        invariant
            i <= l@.len(),
            out@ == start + l@.take(i as int),
        decreases l@.len() - i,
    {
        assert(l@.take(i + 1) =~= l@.take(i as int).push(l@[i as int]));
        out.push(l[i]);
        i += 1;
    }
    assert(l@.take(l@.len() as int) =~= l@);
}

/// Apply the GraphQL block-string dedent algorithm to the raw text of a
/// block string.
pub fn dedent_block_string(raw: &Vec<char>) -> (r: String)
    ensures
        r@ == dedent_spec(raw@),
{
    let lines = split_raw_lines(raw);
    let indent = common_indent_of(&lines);
    let ghost lv = lines_view(lines@);
    let ghost dl = dedented_lines(lv);
    let mut out: Vec<Vec<char>> = Vec::new();
    let n = lines.len();
    for i in 0..n
        invariant
            n == lines@.len(),
            lv == lines_view(lines@),
            dl == dedented_lines(lv),
            indent == common_indent(lv),
            out@.len() == i,
            forall|k: int| 0 <= k < i ==> #[trigger] out@[k]@ == dl[k],
    {
        let l = &lines[i];
        assert(lv[i as int] == l@);
        let line = if i == 0 {
            copy_from(l, 0)
        } else if l.len() >= indent {
            copy_from(l, indent)
        } else {
            Vec::new()
        };
        assert(l@.skip(0) =~= l@);
        out.push(line);
    }
    let ghost ov = lines_view(out@);
    assert(ov =~= dl);
    // Drop blank lines at the start.
    let mut lo: usize = 0;
    assert(ov.skip(0) =~= ov);
    while lo < n && is_blank(&out[lo])
        invariant
            n == out@.len(),
            ov == lines_view(out@),
            lo <= n,
            drop_leading_blank(ov) == drop_leading_blank(ov.skip(lo as int)),
        decreases n - lo,
    {
        assert(ov.skip(lo as int).drop_first() =~= ov.skip(lo + 1));
        lo += 1;
    }
    let ghost kept = ov.skip(lo as int);
    assert(drop_leading_blank(ov) == kept);
    // Drop blank lines at the end.
    let mut hi: usize = n;
    assert(kept.take(kept.len() as int) =~= kept);
    while hi > lo && is_blank(&out[hi - 1])
        invariant
            n == out@.len(),
            ov == lines_view(out@),
            kept == ov.skip(lo as int),
            lo <= hi <= n,
            drop_trailing_blank(kept) == drop_trailing_blank(kept.take(hi - lo)),
        decreases hi,
    {
        assert(kept.take(hi - lo).drop_last() =~= kept.take(hi - lo - 1));
        hi -= 1;
    }
    let ghost m = kept.take(hi - lo);
    assert(drop_trailing_blank(kept) == m);
    // Join the remaining lines.
    let mut result = String::new();
    let mut k = lo;
    assert(m.take(0) =~= Seq::<Seq<char>>::empty());
    while k < hi
        invariant
            n == out@.len(),
            ov == lines_view(out@),
            m == ov.skip(lo as int).take(hi - lo),
            lo <= k <= hi <= n,
            result@ == join(m.take(k - lo), seq!['\n']),
        decreases hi - k,
    {
        proof {
            lemma_join_step(m, k - lo, seq!['\n']);
        }
        assert(m[k - lo] == out@[k as int]@);
        if k > lo {
            result.push('\n');
        }
        push_chars(&mut result, &out[k]);
        k += 1;
    }
    assert(m.take(hi - lo) =~= m);
    result
}

// ---------------------------------------------------------------------------
// What dedenting keeps
// ---------------------------------------------------------------------------

/// `m` is `l` with some spaces and tabs taken off its start.
pub open spec fn strips_leading_blanks(l: Seq<char>, m: Seq<char>) -> bool {
    &&& m.len() <= l.len()
    &&& m == l.skip(l.len() - m.len())
    &&& leading_blanks(l) >= l.len() - m.len()
}

/// `out` are the lines `lo..lo + out.len()` of the raw text (trailing `\r`
/// trimmed), each with some leading spaces and tabs taken off; the lines
/// before and after them are blank; and `out` joined with `\n` is the
/// block string's value.
pub open spec fn dedent_keeps(raw: Seq<char>, lo: int, out: Seq<Seq<char>>) -> bool {
    let ls = raw_lines(raw);
    &&& 0 <= lo
    &&& lo + out.len() <= ls.len()
    &&& dedent_spec(raw) == join(out, seq!['\n'])
    &&& forall|i: int| 0 <= i < lo ==> is_blank_line(#[trigger] ls[i])
    &&& forall|i: int| lo + out.len() <= i < ls.len() ==> is_blank_line(#[trigger] ls[i])
    &&& forall|k: int| 0 <= k < out.len() ==> strips_leading_blanks(ls[lo + k], #[trigger] out[k])
}

proof fn lemma_leading_blanks_bound(l: Seq<char>)
    ensures
        leading_blanks(l) <= l.len(),
    decreases l.len(),
{
    if l.len() > 0 && is_blank_char(l[0]) {
        lemma_leading_blanks_bound(l.drop_first());
    }
}

/// Taking `p` blanks off the start of a line leaves the rest of its blanks.
proof fn lemma_leading_blanks_skip(l: Seq<char>, p: int)
    requires
        0 <= p <= leading_blanks(l),
    ensures
        leading_blanks(l.skip(p)) == leading_blanks(l) - p,
        p <= l.len(),
    decreases p,
{
    lemma_leading_blanks_bound(l);
    if p > 0 {
        lemma_leading_blanks_skip(l.drop_first(), p - 1);
        assert(l.drop_first().skip(p - 1) =~= l.skip(p));
    } else {
        assert(l.skip(0) =~= l);
    }
}

/// The least indentation is at most that of each line that is not blank.
proof fn lemma_min_indent_bound(ls: Seq<Seq<char>>, i: int)
    requires
        0 <= i < ls.len(),
        !is_blank_line(ls[i]),
    ensures
        min_indent(ls) is Some,
        min_indent(ls)->0 <= leading_blanks(ls[i]),
    decreases ls.len(),
{
    if i < ls.len() - 1 {
        lemma_min_indent_bound(ls.drop_last(), i);
    }
}

/// Each dedented line is its raw line with leading blanks taken off, and is
/// blank exactly when the raw line is.
proof fn lemma_dedented_line(ls: Seq<Seq<char>>, i: int)
    requires
        0 <= i < ls.len(),
    ensures
        strips_leading_blanks(ls[i], dedented_lines(ls)[i]),
        is_blank_line(dedented_lines(ls)[i]) == is_blank_line(ls[i]),
{
    let l = ls[i];
    let m = dedented_lines(ls)[i];
    lemma_leading_blanks_bound(l);
    if i == 0 {
        assert(l.skip(0) =~= l);
    } else {
        let c = common_indent(ls);
        if !is_blank_line(l) {
            lemma_min_indent_bound(ls.drop_first(), i - 1);
        }
        if l.len() >= c {
            if c <= leading_blanks(l) {
                lemma_leading_blanks_skip(l, c as int);
            }
        } else {
            assert(l.skip(l.len() as int) =~= m);
        }
    }
}

/// The blank lines at the start that are dropped.
proof fn lemma_drop_leading(ls: Seq<Seq<char>>) -> (lo: int)
    ensures
        0 <= lo <= ls.len(),
        drop_leading_blank(ls) == ls.skip(lo),
        forall|i: int| 0 <= i < lo ==> is_blank_line(#[trigger] ls[i]),
    decreases ls.len(),
{
    if ls.len() > 0 && is_blank_line(ls[0]) {
        let r = lemma_drop_leading(ls.drop_first());
        assert(ls.drop_first().skip(r) =~= ls.skip(r + 1));
        assert forall|i: int| 0 <= i < r + 1 implies is_blank_line(#[trigger] ls[i]) by {
            if i > 0 {
                assert(ls[i] == ls.drop_first()[i - 1]);
            }
        }
        r + 1
    } else {
        assert(ls.skip(0) =~= ls);
        0
    }
}

/// The blank lines at the end that are dropped.
proof fn lemma_drop_trailing(ls: Seq<Seq<char>>) -> (hi: int)
    ensures
        0 <= hi <= ls.len(),
        drop_trailing_blank(ls) == ls.take(hi),
        forall|i: int| hi <= i < ls.len() ==> is_blank_line(#[trigger] ls[i]),
    decreases ls.len(),
{
    if ls.len() > 0 && is_blank_line(ls.last()) {
        let r = lemma_drop_trailing(ls.drop_last());
        assert(ls.drop_last().take(r) =~= ls.take(r));
        assert forall|i: int| r <= i < ls.len() implies is_blank_line(#[trigger] ls[i]) by {
            if i < ls.len() - 1 {
                assert(ls[i] == ls.drop_last()[i]);
            }
        }
        r
    } else {
        assert(ls.take(ls.len() as int) =~= ls);
        ls.len() as int
    }
}

/// Dedenting a block string only takes spaces and tabs off the start of its
/// lines (once trailing `\r` characters are trimmed), apart from dropping
/// blank lines at the start and at the end; the lines that remain keep their
/// order and are joined with `\n`.
pub proof fn law_dedent_only_strips_indentation(raw: Seq<char>)
    ensures
        exists|lo: int, out: Seq<Seq<char>>| dedent_keeps(raw, lo, out),
{
    let ls = raw_lines(raw);
    let dl = dedented_lines(ls);
    assert forall|i: int| 0 <= i < ls.len() implies strips_leading_blanks(ls[i], #[trigger] dl[i])
        && is_blank_line(dl[i]) == is_blank_line(ls[i]) by {
        lemma_dedented_line(ls, i);
    }
    let lo = lemma_drop_leading(dl);
    let kept = dl.skip(lo);
    let hi = lemma_drop_trailing(kept);
    let out = kept.take(hi);
    assert forall|i: int| 0 <= i < lo implies is_blank_line(#[trigger] ls[i]) by {
        assert(is_blank_line(dl[i]));
    }
    assert forall|i: int| lo + out.len() <= i < ls.len() implies is_blank_line(
        #[trigger] ls[i],
    ) by {
        assert(kept[i - lo] == dl[i]);
    }
    assert forall|k: int| 0 <= k < out.len() implies strips_leading_blanks(
        ls[lo + k],
        #[trigger] out[k],
    ) by {
        assert(out[k] == dl[lo + k]);
    }
    assert(dedent_keeps(raw, lo, out));
}

} // verus!
