//! Rebuilding a file's text around its sorted import blocks.

use vstd::prelude::*;
use vstd::string::StringExecFns;
use crate::imports::{
    blocks_of, blocks_well_formed, classify_all, find_import_blocks, group_and_sort_imports,
    line_views, sort_entries, BlockModel, Entry, GroupedImport, ImportBlock,
};
use crate::text::{
    chars_of, end_without_white, is_blank, lemma_rskip_ws_bounds,
};

verus! {

/// The text of lines, each ended by a newline.
pub open spec fn text_of(ls: Seq<Seq<char>>) -> Seq<char>
    decreases ls.len(),
{
    if ls.len() == 0 {
        Seq::empty()
    } else {
        text_of(ls.drop_last()) + ls.last() + seq!['\n']
    }
}

/// Lines with the blank lines at their end dropped.
pub open spec fn strip_end_lines(seg: Seq<Seq<char>>) -> Seq<Seq<char>>
    decreases seg.len(),
{
    if seg.len() == 0 {
        seg
    } else if is_blank(seg.last()) {
        strip_end_lines(seg.drop_last())
    } else {
        seg
    }
}

/// Lines with the blank lines at their start dropped.
pub open spec fn strip_start_lines(seg: Seq<Seq<char>>) -> Seq<Seq<char>>
    decreases seg.len(),
{
    if seg.len() == 0 {
        seg
    } else if is_blank(seg[0]) {
        strip_start_lines(seg.drop_first())
    } else {
        seg
    }
}

/// Sorted import lines, with one blank line wherever the category changes.
pub open spec fn render(e: Seq<Entry>) -> Seq<Seq<char>>
    decreases e.len(),
{
    if e.len() == 0 {
        Seq::empty()
    } else if e.len() >= 2 && e[e.len() - 2].0 != e.last().0 {
        render(e.drop_last()) + seq![Seq::empty(), e.last().1]
    } else {
        render(e.drop_last()) + seq![e.last().1]
    }
}

/// The first line after block `k - 1` (0 for the first block).
pub open spec fn cursor(b: Seq<BlockModel>, k: int) -> int {
    if k <= 0 {
        0
    } else {
        b[k - 1].2 + 1
    }
}

/// The content before block `k`, stripped at its end and followed by one blank
/// line if any is left.
pub open spec fn lead_in(ls: Seq<Seq<char>>, b: Seq<BlockModel>, k: int) -> Seq<Seq<char>> {
    let p = strip_end_lines(ls.subrange(cursor(b, k), b[k].1));
    if p.len() == 0 {
        p
    } else {
        p.push(Seq::empty())
    }
}

/// What block `k` and the content before it become.
pub open spec fn emit_block(ls: Seq<Seq<char>>, b: Seq<BlockModel>, k: int) -> Seq<Seq<char>> {
    lead_in(ls, b, k) + render(sort_entries(classify_all(b[k].0))) + seq![
        Seq::empty(),
        Seq::empty(),
    ]
}

/// What the first `k` blocks and the content before them become.
pub open spec fn emit_upto(ls: Seq<Seq<char>>, b: Seq<BlockModel>, k: int) -> Seq<Seq<char>>
    decreases k,
{
    if k <= 0 {
        Seq::empty()
    } else {
        emit_upto(ls, b, k - 1) + emit_block(ls, b, k - 1)
    }
}

/// The lines of the rebuilt file: each block sorted, surrounded by blank
/// lines, and the content after the last block stripped at its start.
pub open spec fn rebuilt_lines(ls: Seq<Seq<char>>) -> Seq<Seq<char>> {
    let b = blocks_of(ls);
    emit_upto(ls, b, b.len() as int) + strip_start_lines(
        ls.subrange(cursor(b, b.len() as int), ls.len() as int),
    )
}

proof fn lemma_text_of_append(a: Seq<Seq<char>>, b: Seq<Seq<char>>)
    ensures
        text_of(a + b) == text_of(a) + text_of(b),
    decreases b.len(),
{
    if b.len() == 0 {
        assert(a + b =~= a);
        assert(text_of(a) + text_of(b) =~= text_of(a));
    } else {
        lemma_text_of_append(a, b.drop_last());
        assert((a + b).drop_last() =~= a + b.drop_last());
        assert(text_of(a + b) =~= text_of(a) + text_of(b));
    }
}

proof fn lemma_strip_end(seg: Seq<Seq<char>>, q: int)
    requires
        0 <= q <= seg.len(),
        forall|k: int| q <= k < seg.len() ==> is_blank(#[trigger] seg[k]),
        q == 0 || !is_blank(seg[q - 1]),
    ensures
        strip_end_lines(seg) == seg.take(q),
    decreases seg.len(),
{
    if seg.len() == 0 || q == seg.len() {
        assert(seg.take(q) =~= seg);
    } else {
        assert(is_blank(seg[seg.len() - 1]));
        lemma_strip_end(seg.drop_last(), q);
        assert(seg.drop_last().take(q) =~= seg.take(q));
    }
}

proof fn lemma_strip_start(seg: Seq<Seq<char>>, q: int)
    requires
        0 <= q <= seg.len(),
        forall|k: int| 0 <= k < q ==> is_blank(#[trigger] seg[k]),
        q == seg.len() || !is_blank(seg[q]),
    ensures
        strip_start_lines(seg) == seg.skip(q),
    decreases seg.len(),
{
    if seg.len() == 0 || q == 0 {
        assert(seg.skip(q) =~= seg);
    } else {
        assert(is_blank(seg[0]));
        lemma_strip_start(seg.drop_first(), q - 1);
        assert(seg.drop_first().skip(q - 1) =~= seg.skip(q));
    }
}

proof fn lemma_emit_step(ls: Seq<Seq<char>>, b: Seq<BlockModel>, k: int)
    requires
        k >= 0,
    ensures
        ({
            let z: Seq<char> = Seq::empty();
            let p = strip_end_lines(ls.subrange(cursor(b, k), b[k].1));
            let rd = render(sort_entries(classify_all(b[k].0)));
            text_of(emit_upto(ls, b, k + 1)) == text_of(emit_upto(ls, b, k)) + text_of(p) + (if p.len()
                > 0 {
                text_of(seq![z])
            } else {
                Seq::empty()
            }) + text_of(rd) + text_of(seq![z]) + text_of(seq![z])
        }),
{
    let z: Seq<char> = Seq::empty();
    let p = strip_end_lines(ls.subrange(cursor(b, k), b[k].1));
    let li = lead_in(ls, b, k);
    let rd = render(sort_entries(classify_all(b[k].0)));
    if p.len() > 0 {
        lemma_text_of_append(p, seq![z]);
        assert(p + seq![z] =~= p.push(z));
    } else {
        assert(text_of(Seq::<Seq<char>>::empty()) == Seq::<char>::empty());
    }
    lemma_text_of_append(seq![z], seq![z]);
    assert(seq![z] + seq![z] =~= seq![z, z]);
    lemma_text_of_append(li, rd);
    lemma_text_of_append(li + rd, seq![z, z]);
    lemma_text_of_append(emit_upto(ls, b, k), emit_block(ls, b, k));
    let lhs = text_of(emit_upto(ls, b, k + 1));
    assert(emit_upto(ls, b, k + 1) == emit_upto(ls, b, k) + emit_block(ls, b, k));
    if p.len() > 0 {
        assert(lhs =~= text_of(emit_upto(ls, b, k)) + text_of(p) + text_of(seq![z]) + text_of(rd)
            + text_of(seq![z]) + text_of(seq![z]));
    } else {
        assert(lhs =~= text_of(emit_upto(ls, b, k)) + text_of(p) + Seq::<char>::empty() + text_of(
            rd,
        ) + text_of(seq![z]) + text_of(seq![z]));
    }
}

proof fn lemma_empty_literal()
    ensures
        seq![""@] == seq![Seq::<char>::empty()],
{
    reveal_strlit("");
    assert(""@ =~= Seq::<char>::empty());
    assert(seq![""@] =~= seq![Seq::<char>::empty()]);
}

/// Appends one line and its newline.
fn push_line(out: &mut String, line: &str)
    ensures
        final(out)@ == old(out)@ + text_of(seq![line@]),
{
    out.append(line);
    out.append("\n");
    proof {
        reveal_strlit("\n");
        assert(seq![line@].drop_last() =~= Seq::<Seq<char>>::empty());
        assert(text_of(Seq::<Seq<char>>::empty()) == Seq::<char>::empty());
        assert(text_of(seq![line@]) =~= line@ + seq!['\n']);
        assert(final(out)@ =~= old(out)@ + text_of(seq![line@]));
    }
}

/// Whether a line holds nothing but white space.
fn blank_line(line: &str) -> (r: bool)
    ensures
        r == is_blank(line@),
{
    let c = chars_of(line);
    let e = end_without_white(&c);
    proof {
        lemma_rskip_ws_bounds(c@, c@.len() as int);
    }
    e == 0
}


/// Appends the lines `lo..hi` as they are.
fn push_lines(out: &mut String, lines: &[&str], lo: usize, hi: usize)
    requires
        lo <= hi <= lines@.len(),
    ensures
        final(out)@ == old(out)@ + text_of(line_views(lines@).subrange(lo as int, hi as int)),
{
    let ghost seg = line_views(lines@).subrange(lo as int, hi as int);
    let ghost start = out@;
    proof {
        assert(text_of(Seq::<Seq<char>>::empty()) == Seq::<char>::empty());
        assert(seg.take(0) =~= Seq::<Seq<char>>::empty());
        assert(start + Seq::<char>::empty() =~= start);
    }
    let mut k = lo;
    while k < hi
        invariant
            lo <= k <= hi <= lines@.len(),
            seg == line_views(lines@).subrange(lo as int, hi as int),
            out@ == start + text_of(seg.take(k - lo)),
        decreases hi - k,
    {
        push_line(out, lines[k]);
        proof {
            assert(seg[k - lo] == lines@[k as int]@);
            lemma_text_of_append(seg.take(k - lo), seq![seg[k - lo]]);
            assert(seg.take(k + 1 - lo) =~= seg.take(k - lo) + seq![seg[k - lo]]);
        }
        k = k + 1;
    }
    proof {
        assert(seg.take(k - lo) =~= seg);
    }
}

/// Appends `strip_end_lines` of the lines `lo..hi`; says whether any line was left.
fn push_stripped_end(out: &mut String, lines: &[&str], lo: usize, hi: usize) -> (nonempty: bool)
    requires
        lo <= hi <= lines@.len(),
    ensures
        final(out)@ == old(out)@ + text_of(
            strip_end_lines(line_views(lines@).subrange(lo as int, hi as int)),
        ),
        nonempty == (strip_end_lines(line_views(lines@).subrange(lo as int, hi as int)).len() > 0),
{
    let ghost seg = line_views(lines@).subrange(lo as int, hi as int);
    let mut q = hi;
    while q > lo && blank_line(lines[q - 1])
        invariant
            lo <= q <= hi <= lines@.len(),
            seg == line_views(lines@).subrange(lo as int, hi as int),
            forall|k: int| q - lo <= k < seg.len() ==> is_blank(#[trigger] seg[k]),
        decreases q,
    {
        assert(seg[q - 1 - lo] == lines@[q - 1]@);
        q = q - 1;
    }
    proof {
        if q > lo {
            assert(seg[q - 1 - lo] == lines@[q - 1]@);
        }
        lemma_strip_end(seg, q - lo);
        assert(line_views(lines@).subrange(lo as int, q as int) =~= seg.take(q - lo));
    }
    push_lines(out, lines, lo, q);
    q > lo
}

/// Appends `strip_start_lines` of the lines `lo..hi`.
fn push_stripped_start(out: &mut String, lines: &[&str], lo: usize, hi: usize)
    requires
        lo <= hi <= lines@.len(),
    ensures
        final(out)@ == old(out)@ + text_of(
            strip_start_lines(line_views(lines@).subrange(lo as int, hi as int)),
        ),
{
    let ghost seg = line_views(lines@).subrange(lo as int, hi as int);
    let mut q = lo;
    while q < hi && blank_line(lines[q])
        invariant
            lo <= q <= hi <= lines@.len(),
            seg == line_views(lines@).subrange(lo as int, hi as int),
            forall|k: int| 0 <= k < q - lo ==> is_blank(#[trigger] seg[k]),
        decreases hi - q,
    {
        assert(seg[q - lo] == lines@[q as int]@);
        q = q + 1;
    }
    proof {
        if q < hi {
            assert(seg[q - lo] == lines@[q as int]@);
        }
        lemma_strip_start(seg, q - lo);
        assert(line_views(lines@).subrange(q as int, hi as int) =~= seg.skip(q - lo));
    }
    push_lines(out, lines, q, hi);
}

/// Appends the lines of a sorted block, with a blank line where the category changes.
fn push_rendered(out: &mut String, g: &Vec<GroupedImport>)
    ensures
        final(out)@ == old(out)@ + text_of(render(g@.map_values(|x: GroupedImport| x@))),
{
    let ghost e = g@.map_values(|x: GroupedImport| x@);
    let ghost start = out@;
    proof {
        reveal_strlit("");
        assert(render(e.take(0)) == Seq::<Seq<char>>::empty());
        assert(text_of(Seq::<Seq<char>>::empty()) == Seq::<char>::empty());
        assert(start + Seq::<char>::empty() =~= start);
    }
    let mut i: usize = 0;
    while i < g.len()
        invariant
            i <= g@.len(),
            e == g@.map_values(|x: GroupedImport| x@),
            out@ == start + text_of(render(e.take(i as int))),
        decreases g@.len() - i,
    {
        let ghost before = render(e.take(i as int));
        proof {
            assert(e.take(i + 1).drop_last() =~= e.take(i as int));
        }
        if i > 0 && g[i - 1].group != g[i].group {
            push_line(out, "");
            push_line(out, g[i].line.as_str());
            proof {
                lemma_empty_literal();
                let x: Seq<char> = Seq::empty();
                let y = g@[i as int].line@;
                assert(render(e.take(i + 1)) == before + seq![x, y]);
                lemma_text_of_append(seq![x], seq![y]);
                assert(seq![x] + seq![y] =~= seq![x, y]);
                lemma_text_of_append(before, seq![x, y]);
                assert(out@ =~= start + text_of(render(e.take(i + 1))));
            }
        } else {
            push_line(out, g[i].line.as_str());
            proof {
                let y = g@[i as int].line@;
                assert(render(e.take(i + 1)) == before + seq![y]);
                lemma_text_of_append(before, seq![y]);
                assert(out@ =~= start + text_of(render(e.take(i + 1))));
            }
        }
        i = i + 1;
    }
    proof {
        assert(e.take(i as int) =~= e);
    }
}

/// The file's new text, given its lines, or `None` when it has no import
/// line and is to be left as it is. Each import block is sorted and set off
/// by blank lines; the rest of the content keeps its order.
#[verifier::rlimit(40)]
pub fn rebuild_content(lines: &[&str]) -> (r: Option<String>)
    ensures
        r is None <==> blocks_of(line_views(lines@)).len() == 0,
        r is Some ==> r->0@ == text_of(rebuilt_lines(line_views(lines@))),
{
    let ghost ls = line_views(lines@);
    let blocks = find_import_blocks(lines);
    let ghost b = blocks@.map_values(|x: ImportBlock| x@);
    if blocks.len() == 0 {
        return None;
    }
    let mut out = String::new();
    let mut last_end: usize = 0;
    let mut k: usize = 0;
    proof {
        assert(text_of(Seq::<Seq<char>>::empty()) == Seq::<char>::empty());
        assert(out@ =~= text_of(emit_upto(ls, b, 0)));
    }
    while k < blocks.len()
        invariant
            k <= blocks@.len(),
            ls == line_views(lines@),
            b == blocks@.map_values(|x: ImportBlock| x@),
            b == blocks_of(ls),
            blocks_well_formed(b, lines@.len() as int),
            last_end as int == cursor(b, k as int),
            out@ == text_of(emit_upto(ls, b, k as int)),
        decreases blocks@.len() - k,
    {
        let block = &blocks[k];
        let ghost t0 = out@;
        proof {
            assert(b[k as int] == block@);
            if k > 0 {
                assert(b[k - 1] == blocks@[k - 1]@);
            }
        }
        let nonempty = push_stripped_end(&mut out, lines, last_end, block.start_line);
        let ghost t1 = out@;
        if nonempty {
            push_line(&mut out, "");
        }
        let ghost t2 = out@;
        let grouped = group_and_sort_imports(block.imports.as_slice());
        push_rendered(&mut out, &grouped);
        let ghost t3 = out@;
        push_line(&mut out, "");
        push_line(&mut out, "");
        proof {
            lemma_empty_literal();
            lemma_emit_step(ls, b, k as int);
            let z: Seq<char> = Seq::empty();
            let p = strip_end_lines(ls.subrange(cursor(b, k as int), b[k as int].1));
            assert(t1 == t0 + text_of(p));
            if nonempty {
                assert(t2 == t1 + text_of(seq![z]));
            } else {
                assert(t2 == t1);
            }
            assert(out@ =~= text_of(emit_upto(ls, b, k + 1)));
        }
        let n = lines.len();
        assert(block.end_line < n) by {
            assert(b[k as int] == block@);
        }
        last_end = block.end_line + 1;
        k = k + 1;
    }
    proof {
        assert(b[k - 1] == blocks@[k - 1]@);
    }
    let ghost t4 = out@;
    push_stripped_start(&mut out, lines, last_end, lines.len());
    proof {
        lemma_text_of_append(
            emit_upto(ls, b, b.len() as int),
            strip_start_lines(ls.subrange(cursor(b, b.len() as int), ls.len() as int)),
        );
    }
    Some(out)
}


/// How often the category changes between neighbours among `e[0..=k]`.
pub open spec fn changes(e: Seq<Entry>, k: int) -> int
    decreases k,
{
    if k <= 0 {
        0
    } else {
        changes(e, k - 1) + if e[k - 1].0 != e[k].0 {
            1int
        } else {
            0
        }
    }
}

/// Where the line of `e[k]` stands in `render(e)`.
pub open spec fn position(e: Seq<Entry>, k: int) -> int {
    k + changes(e, k)
}

proof fn lemma_changes_prefix(e: Seq<Entry>, f: Seq<Entry>, k: int)
    requires
        0 <= k < e.len(),
        k < f.len(),
        forall|j: int| 0 <= j <= k ==> e[j] == f[j],
    ensures
        changes(e, k) == changes(f, k),
    decreases k,
{
    if k > 0 {
        lemma_changes_prefix(e, f, k - 1);
    }
}

/// Lines of later entries stand further down.
pub proof fn lemma_position_mono(e: Seq<Entry>, k: int, m: int)
    requires
        0 <= k <= m,
    ensures
        k <= position(e, k) <= position(e, m),
    decreases m,
{
    if k < m {
        lemma_position_mono(e, k, m - 1);
    } else if k > 0 {
        lemma_position_mono(e, k - 1, k - 1);
    }
}

/// Inside a rendered block, each import line stands at `position` (which
/// steps by two where the category changes and by one elsewhere), and the
/// line between two categories is blank; nothing else is in the block.
pub proof fn render_spacing(e: Seq<Entry>)
    ensures
        e.len() == 0 ==> render(e).len() == 0,
        e.len() > 0 ==> render(e).len() == position(e, e.len() - 1) + 1,
        forall|k: int| 0 <= k < e.len() ==> render(e)[#[trigger] position(e, k)] == e[k].1,
        forall|k: int|
            0 < k < e.len() && e[k - 1].0 != e[k].0 ==> render(e)[#[trigger] position(e, k) - 1]
                == Seq::<char>::empty(),
    decreases e.len(),
{
    if e.len() > 0 {
        let f = e.drop_last();
        let n = e.len() - 1;
        render_spacing(f);
        let z: Seq<char> = Seq::empty();
        let rf = render(f);
        let ch = n > 0 && e[n - 1].0 != e[n].0;
        let tail = if ch {
            seq![z, e[n].1]
        } else {
            seq![e[n].1]
        };
        let r = render(e);
        assert(r == rf + tail);
        assert forall|k: int| 0 <= k < f.len() implies position(e, k) == position(f, k) by {
            lemma_changes_prefix(e, f, k);
        }
        if n > 0 {
            assert(position(e, n - 1) == position(f, n - 1));
            assert(rf.len() == position(f, n - 1) + 1);
        }
        assert(position(e, n) == n + changes(e, n));
        assert(r.len() == position(e, n) + 1);
        assert forall|k: int| 0 <= k < e.len() implies r[#[trigger] position(e, k)] == e[k].1 by {
            if k < n {
                lemma_position_mono(f, k, n - 1);
                assert(position(e, k) == position(f, k));
                assert(r[position(e, k)] == rf[position(f, k)]);
            }
        }
        assert forall|k: int| 0 < k < e.len() && e[k - 1].0 != e[k].0 implies r[#[trigger] position(
            e,
            k,
        ) - 1] == z by {
            if k < n {
                lemma_position_mono(f, k, n - 1);
                assert(position(e, k) == position(f, k));
                assert(r[position(e, k) - 1] == rf[position(f, k) - 1]);
            }
        }
    }
}


/// The content before a block is either nothing, or ends with a non-blank
/// line followed by exactly one empty line.
pub proof fn lead_in_spacing(ls: Seq<Seq<char>>, b: Seq<BlockModel>, k: int)
    ensures
        lead_in(ls, b, k).len() == 0 || (lead_in(ls, b, k).len() >= 2 && lead_in(ls, b, k).last()
            == Seq::<char>::empty() && !is_blank(
            lead_in(ls, b, k)[lead_in(ls, b, k).len() - 2],
        )),
{
    lemma_strip_end_last(ls.subrange(cursor(b, k), b[k].1));
}

proof fn lemma_strip_end_last(seg: Seq<Seq<char>>)
    ensures
        strip_end_lines(seg).len() == 0 || !is_blank(strip_end_lines(seg).last()),
    decreases seg.len(),
{
    if seg.len() > 0 && is_blank(seg.last()) {
        lemma_strip_end_last(seg.drop_last());
    }
}

/// A rebuilt block ends with two empty lines.
pub proof fn block_ends_with_two_empty_lines(ls: Seq<Seq<char>>, b: Seq<BlockModel>, k: int)
    ensures
        emit_block(ls, b, k).len() >= 2,
        emit_block(ls, b, k).last() == Seq::<char>::empty(),
        emit_block(ls, b, k)[emit_block(ls, b, k).len() - 2] == Seq::<char>::empty(),
{
}

} // verus!
