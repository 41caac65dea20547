//! What the block scanner guarantees, what rebuilding keeps, and why
//! rebuilding a file with at most one import block a second time changes nothing.

use vstd::prelude::*;
use crate::imports::{
    blocks_of, classify_all, is_import_line, lines_of, scan, scan_step, sort_again_changes_nothing,
    sort_entries, BlockModel, Entry, ScanState,
};
use crate::rewrite::{
    cursor, emit_block, emit_upto, lead_in, lemma_position_mono, position, rebuilt_lines, render, render_spacing,
    strip_end_lines, strip_start_lines,
};
use crate::text::{
    is_blank, lemma_trim_twice, trim,
};

verus! {

/// The closed blocks of a scanner state followed by its open one.
pub open spec fn all_blocks(st: ScanState) -> Seq<BlockModel> {
    match st.1 {
        Some(b) => st.0.push(b),
        None => st.0,
    }
}

/// Line `i` is an import statement once trimmed.
pub open spec fn import_at(ls: Seq<Seq<char>>, i: int) -> bool {
    is_import_line(trim(ls[i]))
}

/// A line that is its own trimmed form and an import statement.
pub open spec fn clean_import(t: Seq<char>) -> bool {
    is_import_line(t) && trim(t) == t
}

/// Every line from the first to the last line of a block is an import line
/// or a blank line.
pub open spec fn span_ok(ls: Seq<Seq<char>>, blk: BlockModel) -> bool {
    forall|i: int| blk.1 <= i <= blk.2 ==> import_at(ls, i) || (#[trigger] trim(ls[i])).len() == 0
}

proof fn lemma_import_not_blank(t: Seq<char>)
    ensures
        is_import_line(t) ==> t.len() > 0,
{
    reveal_strlit("import");
    reveal_strlit("from");
}

proof fn lemma_scan_facts(ls: Seq<Seq<char>>, m: int)
    requires
        0 <= m <= ls.len(),
    ensures
        ({
            let a = all_blocks(scan(ls, m));
            &&& a.len() == 0 ==> forall|i: int| 0 <= i < m ==> !import_at(ls, i)
            &&& a.len() > 0 ==> forall|i: int| 0 <= i < a[0].1 ==> !import_at(ls, i)
            &&& a.len() > 0 ==> forall|i: int| 0 <= i < m && import_at(ls, i) ==> i <= a.last().2
            &&& a.len() > 0 ==> a.last().2 < m
            &&& forall|k: int| 0 <= k < a.len() ==> 0 <= (#[trigger] a[k]).1 <= a[k].2 && a[k].0.len() >= 1
            &&& forall|k: int| 0 <= k < a.len() ==> span_ok(ls, #[trigger] a[k])
            &&& forall|k: int| 0 < k < a.len() ==> a[k - 1].2 < (#[trigger] a[k]).1
            &&& scan(ls, m).1 is Some ==> forall|i: int|
                a.last().2 < i < m ==> (#[trigger] trim(ls[i])).len() == 0
            &&& forall|k: int, t: int|
                0 <= k < a.len() && 0 <= t < a[k].0.len() ==> clean_import(#[trigger] a[k].0[t])
        }),
    decreases m,
{
    if m > 0 {
        lemma_scan_facts(ls, m - 1);
        let st = scan(ls, m - 1);
        let a0 = all_blocks(st);
        let t = trim(ls[m - 1]);
        lemma_trim_twice(ls[m - 1]);
        lemma_import_not_blank(t);
        let a = all_blocks(scan(ls, m));
        assert(scan(ls, m) == scan_step(st, ls[m - 1], m - 1));
        if is_import_line(t) {
            match st.1 {
                Some(b) => {
                    assert(a == a0.drop_last().push((b.0.push(t), b.1, m - 1)));
                    assert forall|k: int, u: int| 0 <= k < a.len() && 0 <= u < a[k].0.len() implies clean_import(
                        #[trigger] a[k].0[u],
                    ) by {
                        if k == a.len() - 1 {
                            if u < b.0.len() {
                                assert(a[k].0[u] == a0[k].0[u]);
                            }
                        } else {
                            assert(a[k] == a0[k]);
                        }
                    }
                    if a.len() > 1 {
                        assert(a[0] == a0[0]);
                    }
                    assert forall|k: int| 0 <= k < a.len() implies 0 <= (#[trigger] a[k]).1 <= a[k].2
                        && a[k].0.len() >= 1 by {
                        if k < a.len() - 1 {
                            assert(a[k] == a0[k]);
                        }
                    }
                    assert forall|k: int| 0 < k < a.len() implies a[k - 1].2 < (#[trigger] a[k]).1 by {
                        assert(a[k - 1].2 <= a0[k - 1].2 || k - 1 == a.len() - 1);
                        if k < a.len() - 1 {
                            assert(a[k] == a0[k] && a[k - 1] == a0[k - 1]);
                        } else {
                            assert(a[k - 1] == a0[k - 1] && a[k].1 == a0[k].1);
                        }
                    }
                    assert forall|k: int| 0 <= k < a.len() implies span_ok(ls, #[trigger] a[k]) by {
                        if k < a.len() - 1 {
                            assert(a[k] == a0[k]);
                        } else {
                            assert(span_ok(ls, a0[k]));
                            assert forall|i: int| a[k].1 <= i <= a[k].2 implies import_at(ls, i) || (
                            #[trigger] trim(ls[i])).len() == 0 by {
                                if i <= b.2 {
                                    assert(a0[k].1 <= i <= a0[k].2);
                                }
                            }
                        }
                    }
                },
                None => {
                    assert(a == a0.push((seq![t], m - 1, m - 1)));
                    assert forall|k: int, u: int| 0 <= k < a.len() && 0 <= u < a[k].0.len() implies clean_import(
                        #[trigger] a[k].0[u],
                    ) by {
                        if k < a0.len() {
                            assert(a[k] == a0[k]);
                        }
                    }
                    if a0.len() > 0 {
                        assert(a[0] == a0[0]);
                    }
                    assert forall|k: int| 0 <= k < a.len() implies 0 <= (#[trigger] a[k]).1 <= a[k].2
                        && a[k].0.len() >= 1 by {
                        if k < a0.len() {
                            assert(a[k] == a0[k]);
                        }
                    }
                    assert forall|k: int| 0 <= k < a.len() implies span_ok(ls, #[trigger] a[k]) by {
                        if k < a0.len() {
                            assert(a[k] == a0[k]);
                        }
                    }
                    assert forall|k: int| 0 < k < a.len() implies a[k - 1].2 < (#[trigger] a[k]).1 by {
                        assert(a[k - 1] == a0[k - 1]);
                        if k < a0.len() {
                            assert(a[k] == a0[k]);
                        }
                    }
                },
            }
        } else {
            assert(a == a0);
        }
    }
}

/// Each block found in a file spans only import lines and blank lines, and
/// its lines are import statements as trimmed.
pub proof fn block_spans_hold_imports_or_blanks(ls: Seq<Seq<char>>)
    ensures
        forall|k: int| 0 <= k < blocks_of(ls).len() ==> span_ok(ls, #[trigger] blocks_of(ls)[k]),
        forall|k: int, t: int|
            0 <= k < blocks_of(ls).len() && 0 <= t < blocks_of(ls)[k].0.len() ==> clean_import(
                #[trigger] blocks_of(ls)[k].0[t],
            ),
{
    lemma_scan_facts(ls, ls.len() as int);
    assert(all_blocks(scan(ls, ls.len() as int)) == blocks_of(ls));
}

proof fn lemma_scan_quiet(ls: Seq<Seq<char>>, lo: int, hi: int)
    requires
        0 <= lo <= hi <= ls.len(),
        scan(ls, lo).1 is None,
        forall|i: int| lo <= i < hi ==> !import_at(ls, i),
    ensures
        scan(ls, hi) == scan(ls, lo),
    decreases hi - lo,
{
    if lo < hi {
        lemma_scan_quiet(ls, lo, hi - 1);
        assert(!import_at(ls, hi - 1));
        assert(!is_import_line(trim(ls[hi - 1])));
        assert(scan(ls, hi) == scan_step(scan(ls, hi - 1), ls[hi - 1], hi - 1));
    }
}

proof fn lemma_scan_blank_open(ls: Seq<Seq<char>>, lo: int, hi: int)
    requires
        0 <= lo <= hi <= ls.len(),
        scan(ls, lo).1 is Some,
        forall|i: int| lo <= i < hi ==> (#[trigger] trim(ls[i])).len() == 0,
    ensures
        scan(ls, hi) == scan(ls, lo),
    decreases hi - lo,
{
    if lo < hi {
        lemma_scan_blank_open(ls, lo, hi - 1);
        lemma_import_not_blank(trim(ls[hi - 1]));
    }
}

proof fn lemma_empty_is_blank()
    ensures
        trim(Seq::<char>::empty()).len() == 0,
        is_blank(Seq::<char>::empty()),
        !is_import_line(Seq::<char>::empty()),
{
    lemma_trim_twice(Seq::<char>::empty());
    lemma_import_not_blank(Seq::<char>::empty());
}

/// Scanning a rendered block that starts at `p` opens one block holding its
/// import lines.
proof fn lemma_scan_render(ls: Seq<Seq<char>>, p: int, s: Seq<Entry>, d: Seq<BlockModel>)
    requires
        s.len() > 0,
        0 <= p,
        p + render(s).len() <= ls.len(),
        ls.subrange(p, p + render(s).len()) == render(s),
        forall|k: int| 0 <= k < s.len() ==> clean_import(#[trigger] s[k].1),
        scan(ls, p) == (d, None::<BlockModel>),
    ensures
        scan(ls, p + render(s).len()) == (d, Some((lines_of(s), p, p + render(s).len() - 1))),
{
    render_spacing(s);
    lemma_empty_is_blank();
    let n = s.len() as int;
    lemma_scan_render_upto(ls, p, s, d, n - 1);
    assert(s.take(n) =~= s);
}

proof fn lemma_scan_render_upto(
    ls: Seq<Seq<char>>,
    p: int,
    s: Seq<Entry>,
    d: Seq<BlockModel>,
    k: int,
)
    requires
        0 <= k < s.len(),
        0 <= p,
        p + render(s).len() <= ls.len(),
        ls.subrange(p, p + render(s).len()) == render(s),
        forall|j: int| 0 <= j < s.len() ==> clean_import(#[trigger] s[j].1),
        scan(ls, p) == (d, None::<BlockModel>),
    ensures
        scan(ls, p + position(s, k) + 1) == (d, Some((lines_of(s.take(k + 1)), p, p + position(s, k)))),
    decreases k,
{
    render_spacing(s);
    lemma_empty_is_blank();
    let g = render(s);
    lemma_position_bound(s, k);
    let at = p + position(s, k);
    assert(ls[at] == g[position(s, k)]);
    assert(clean_import(s[k].1));
    if k == 0 {
        assert(position(s, 0) == 0);
        assert(lines_of(s.take(1)) =~= seq![s[0].1]);
    } else {
        lemma_scan_render_upto(ls, p, s, d, k - 1);
        lemma_position_bound(s, k - 1);
        let prev = p + position(s, k - 1) + 1;
        if s[k - 1].0 != s[k].0 {
            assert(ls[prev] == g[position(s, k) - 1]);
            lemma_scan_blank_open(ls, prev, prev + 1);
        }
        assert(lines_of(s.take(k + 1)) =~= lines_of(s.take(k)).push(s[k].1));
    }
}

proof fn lemma_position_bound(s: Seq<Entry>, k: int)
    requires
        0 <= k < s.len(),
    ensures
        0 <= position(s, k) < render(s).len(),
{
    render_spacing(s);
    lemma_position_mono(s, k, s.len() - 1);
}


proof fn lemma_strip_end_facts(seg: Seq<Seq<char>>)
    ensures
        strip_end_lines(seg).len() <= seg.len(),
        forall|i: int|
            0 <= i < strip_end_lines(seg).len() ==> #[trigger] strip_end_lines(seg)[i] == seg[i],
        strip_end_lines(seg).len() > 0 ==> !is_blank(strip_end_lines(seg).last()),
        strip_end_lines(strip_end_lines(seg)) == strip_end_lines(seg),
        strip_end_lines(strip_end_lines(seg).push(Seq::empty())) == strip_end_lines(seg),
    decreases seg.len(),
{
    lemma_empty_is_blank();
    let r = strip_end_lines(seg);
    if seg.len() > 0 && is_blank(seg.last()) {
        lemma_strip_end_facts(seg.drop_last());
    }
    assert(r.push(Seq::empty()).drop_last() =~= r);
}

proof fn lemma_strip_start_facts(seg: Seq<Seq<char>>)
    ensures
        strip_start_lines(seg).len() <= seg.len(),
        forall|i: int|
            0 <= i < strip_start_lines(seg).len() ==> #[trigger] strip_start_lines(seg)[i]
                == seg[i + seg.len() - strip_start_lines(seg).len()],
        strip_start_lines(seg).len() > 0 ==> !is_blank(strip_start_lines(seg)[0]),
        strip_start_lines(strip_start_lines(seg)) == strip_start_lines(seg),
        strip_start_lines(seq![Seq::empty(), Seq::empty()] + strip_start_lines(seg))
            == strip_start_lines(seg),
    decreases seg.len(),
{
    lemma_empty_is_blank();
    let r = strip_start_lines(seg);
    if seg.len() > 0 && is_blank(seg[0]) {
        lemma_strip_start_facts(seg.drop_first());
    }
    let z: Seq<char> = Seq::empty();
    let w = seq![z, z] + r;
    assert(w.drop_first() =~= seq![z] + r);
    assert((seq![z] + r).drop_first() =~= r);
    assert(w[0] == z && (seq![z] + r)[0] == z);
    assert(strip_start_lines(seq![z] + r) == strip_start_lines(r));
    assert(strip_start_lines(w) == strip_start_lines(seq![z] + r));
}

/// Rebuilding the lines of a file with at most one import block a second
/// time gives the same lines: the result has as many blocks, its block holds
/// the sorted lines of the original block, and rebuilding it changes nothing.
pub proof fn rebuild_is_stable(ls: Seq<Seq<char>>)
    requires
        blocks_of(ls).len() <= 1,
    ensures
        blocks_of(rebuilt_lines(ls)).len() == blocks_of(ls).len(),
        blocks_of(ls).len() == 1 ==> blocks_of(rebuilt_lines(ls))[0].0 == lines_of(
            sort_entries(classify_all(blocks_of(ls)[0].0)),
        ),
        rebuilt_lines(rebuilt_lines(ls)) == rebuilt_lines(ls),
{
    if blocks_of(ls).len() == 1 {
        lemma_one_block_stable(ls);
    } else {
        let n = ls.len() as int;
        lemma_scan_facts(ls, n);
        assert(all_blocks(scan(ls, n)) == blocks_of(ls));
        let b = blocks_of(ls);
        let o = rebuilt_lines(ls);
        let q = strip_start_lines(ls.subrange(0, n));
        lemma_strip_start_facts(ls.subrange(0, n));
        assert(o =~= q);
        assert forall|i: int| 0 <= i < o.len() implies !import_at(o, i) by {
            let d = n - q.len();
            assert(q[i] == ls.subrange(0, n)[i + d]);
            assert(ls.subrange(0, n)[i + d] == ls[i + d]);
            assert(!import_at(ls, i + d));
        }
        lemma_scan_quiet(o, 0, o.len() as int);
        assert(scan(o, 0) == (Seq::<BlockModel>::empty(), None::<BlockModel>));
        let b2 = blocks_of(o);
        assert(b2.len() == 0);
        assert(o.subrange(0, o.len() as int) =~= o);
        assert(ls.subrange(0, n) =~= ls);
    }
}

#[verifier::rlimit(60)]
proof fn lemma_one_block_stable(ls: Seq<Seq<char>>)
    requires
        blocks_of(ls).len() == 1,
    ensures
        blocks_of(rebuilt_lines(ls)).len() == 1,
        blocks_of(rebuilt_lines(ls))[0].0 == lines_of(sort_entries(classify_all(blocks_of(ls)[0].0))),
        sort_entries(classify_all(blocks_of(ls)[0].0)).len() > 0,
        blocks_of(rebuilt_lines(ls))[0].1 == lead_in(ls, blocks_of(ls), 0).len(),
        blocks_of(rebuilt_lines(ls))[0].2 == lead_in(ls, blocks_of(ls), 0).len() + render(
            sort_entries(classify_all(blocks_of(ls)[0].0)),
        ).len() - 1,
        rebuilt_lines(ls).subrange(
            blocks_of(rebuilt_lines(ls))[0].1,
            blocks_of(rebuilt_lines(ls))[0].2 + 1,
        ) == render(sort_entries(classify_all(blocks_of(ls)[0].0))),
        rebuilt_lines(rebuilt_lines(ls)) == rebuilt_lines(ls),
{
    broadcast use vstd::seq_lib::group_to_multiset_ensures;

    let n = ls.len() as int;
    let b = blocks_of(ls);
    lemma_scan_facts(ls, n);
    assert(all_blocks(scan(ls, n)) == b);
    lemma_empty_is_blank();
    let x = b[0].0;
    let s0 = b[0].1;
    let e0 = b[0].2;
    let z: Seq<char> = Seq::empty();
    let st = sort_entries(classify_all(x));
    let g = render(st);
    crate::imports::sort_keeps_every_line(x);
    assert forall|k: int| 0 <= k < st.len() implies clean_import(#[trigger] st[k].1) by {
        assert(lines_of(st)[k] == st[k].1);
        assert(lines_of(st).contains(st[k].1));
        assert(x.to_multiset().count(st[k].1) > 0);
        let j = choose|j: int| 0 <= j < x.len() && x[j] == st[k].1;
        assert(clean_import(b[0].0[j]));
    }
    assert(st.len() == lines_of(st).len());
    let se = strip_end_lines(ls.subrange(0, s0));
    let pl = lead_in(ls, b, 0);
    let q = strip_start_lines(ls.subrange(e0 + 1, n));
    lemma_strip_end_facts(ls.subrange(0, s0));
    lemma_strip_start_facts(ls.subrange(e0 + 1, n));
    let o = rebuilt_lines(ls);
    assert(emit_upto(ls, b, 1) =~= emit_upto(ls, b, 0) + emit_block(ls, b, 0));
    assert(o =~= pl + g + seq![z, z] + q);
    let p = pl.len() as int;
    let gl = g.len() as int;
    // The lead-in holds no import line.
    assert forall|i: int| 0 <= i < p implies !import_at(o, i) by {
        assert(o[i] == pl[i]);
        if i < se.len() {
            assert(pl[i] == se[i]);
            assert(se[i] == ls.subrange(0, s0)[i]);
            assert(ls.subrange(0, s0)[i] == ls[i]);
            assert(!import_at(ls, i));
        } else {
            assert(pl[i] == z);
        }
    }
    lemma_scan_quiet(o, 0, p);
    assert(scan(o, 0) == (Seq::<BlockModel>::empty(), None::<BlockModel>));
    assert(o.subrange(p, p + gl) =~= g);
    lemma_scan_render(o, p, st, Seq::empty());
    let blk: BlockModel = (lines_of(st), p, p + gl - 1);
    assert forall|i: int| p + gl <= i < p + gl + 2 implies (#[trigger] trim(o[i])).len() == 0 by {
        assert(o[i] == z);
    }
    lemma_scan_blank_open(o, p + gl, p + gl + 2);
    let q0 = p + gl + 2;
    let d = (n - (e0 + 1)) - q.len();
    if q.len() > 0 {
        assert(o[q0] == q[0]);
        lemma_trim_twice(q[0]);
        assert(q[0] == ls.subrange(e0 + 1, n)[d]);
        assert(!import_at(ls, e0 + 1 + d));
        assert(scan(o, q0 + 1) == scan_step(scan(o, q0), o[q0], q0));
        assert(scan(o, q0 + 1) == (seq![blk], None::<BlockModel>));
        assert forall|i: int| q0 + 1 <= i < o.len() implies !import_at(o, i) by {
            let j = i - q0;
            assert(o[i] == q[j]);
            assert(q[j] == ls.subrange(e0 + 1, n)[j + d]);
            assert(!import_at(ls, e0 + 1 + j + d));
        }
        lemma_scan_quiet(o, q0 + 1, o.len() as int);
    }
    assert(o.len() == q0 + q.len());
    let b2 = blocks_of(o);
    assert(b2 =~= seq![blk]);
    assert(o.subrange(p, p + gl) =~= g);
    // Second pass.
    sort_again_changes_nothing(x);
    assert(o.subrange(0, p) =~= pl);
    if se.len() > 0 {
        assert(pl == se.push(z));
    }
    assert(lead_in(o, b2, 0) == pl);
    assert(emit_block(o, b2, 0) == pl + g + seq![z, z]);
    assert(emit_upto(o, b2, 1) =~= emit_upto(o, b2, 0) + emit_block(o, b2, 0));
    assert(o.subrange(cursor(b2, 1), o.len() as int) =~= seq![z, z] + q);
    assert(rebuilt_lines(o) =~= o);
}


/// A line that is neither blank nor an import statement.
pub open spec fn other_line(l: Seq<char>) -> bool {
    !is_blank(l) && !is_import_line(trim(l))
}

/// The lines of `ls` that are neither blank nor import statements, in order.
pub open spec fn kept(ls: Seq<Seq<char>>) -> Seq<Seq<char>>
    decreases ls.len(),
{
    if ls.len() == 0 {
        Seq::empty()
    } else if other_line(ls.last()) {
        kept(ls.drop_last()).push(ls.last())
    } else {
        kept(ls.drop_last())
    }
}

proof fn lemma_kept_append(a: Seq<Seq<char>>, b: Seq<Seq<char>>)
    ensures
        kept(a + b) == kept(a) + kept(b),
    decreases b.len(),
{
    if b.len() == 0 {
        assert(a + b =~= a);
        assert(kept(a) + kept(b) =~= kept(a));
    } else {
        lemma_kept_append(a, b.drop_last());
        assert((a + b).drop_last() =~= a + b.drop_last());
        assert((a + b).last() == b.last());
        if other_line(b.last()) {
            assert(kept(a + b) =~= kept(a) + kept(b));
        } else {
            assert(kept(a + b) =~= kept(a) + kept(b));
        }
    }
}

proof fn lemma_kept_none(seg: Seq<Seq<char>>)
    requires
        forall|i: int| 0 <= i < seg.len() ==> !other_line(#[trigger] seg[i]),
    ensures
        kept(seg) == Seq::<Seq<char>>::empty(),
    decreases seg.len(),
{
    if seg.len() > 0 {
        assert(!other_line(seg[seg.len() - 1]));
        lemma_kept_none(seg.drop_last());
    }
}

proof fn lemma_kept_strip_end(seg: Seq<Seq<char>>)
    ensures
        kept(strip_end_lines(seg)) == kept(seg),
    decreases seg.len(),
{
    if seg.len() > 0 && is_blank(seg.last()) {
        lemma_kept_strip_end(seg.drop_last());
    }
}

proof fn lemma_kept_strip_start(seg: Seq<Seq<char>>)
    ensures
        kept(strip_start_lines(seg)) == kept(seg),
    decreases seg.len(),
{
    if seg.len() > 0 && is_blank(seg[0]) {
        lemma_kept_strip_start(seg.drop_first());
        lemma_kept_append(seq![seg[0]], seg.drop_first());
        assert(seq![seg[0]] + seg.drop_first() =~= seg);
        assert(seq![seg[0]].drop_last() =~= Seq::<Seq<char>>::empty());
        assert(!other_line(seg[0]));
        assert(kept(seq![seg[0]]) == kept(Seq::<Seq<char>>::empty()));
    }
}

proof fn lemma_sorted_lines_clean(x: Seq<Seq<char>>)
    requires
        forall|t: int| 0 <= t < x.len() ==> clean_import(#[trigger] x[t]),
    ensures
        forall|k: int|
            0 <= k < sort_entries(classify_all(x)).len() ==> clean_import(
                #[trigger] sort_entries(classify_all(x))[k].1,
            ),
{
    broadcast use vstd::seq_lib::group_to_multiset_ensures;

    let st = sort_entries(classify_all(x));
    crate::imports::sort_keeps_every_line(x);
    assert forall|k: int| 0 <= k < st.len() implies clean_import(#[trigger] st[k].1) by {
        assert(lines_of(st)[k] == st[k].1);
        assert(lines_of(st).contains(st[k].1));
        assert(x.to_multiset().count(st[k].1) > 0);
        let j = choose|j: int| 0 <= j < x.len() && x[j] == st[k].1;
        assert(clean_import(x[j]));
    }
}

proof fn lemma_kept_render(e: Seq<Entry>)
    requires
        forall|k: int| 0 <= k < e.len() ==> clean_import(#[trigger] e[k].1),
    ensures
        kept(render(e)) == Seq::<Seq<char>>::empty(),
{
    render_spacing(e);
    lemma_empty_is_blank();
    let r = render(e);
    assert forall|i: int| 0 <= i < r.len() implies !other_line(#[trigger] r[i]) by {
        lemma_render_line(e, i);
    }
    lemma_kept_none(r);
}

proof fn lemma_render_line(e: Seq<Entry>, i: int)
    requires
        0 <= i < render(e).len(),
        forall|k: int| 0 <= k < e.len() ==> clean_import(#[trigger] e[k].1),
    ensures
        render(e)[i] == Seq::<char>::empty() || clean_import(render(e)[i]),
    decreases e.len(),
{
    let f = e.drop_last();
    if i < render(f).len() {
        assert forall|k: int| 0 <= k < f.len() implies clean_import(#[trigger] f[k].1) by {
            assert(f[k] == e[k]);
        }
        lemma_render_line(f, i);
    } else {
        assert(clean_import(e[e.len() - 1].1));
    }
}

/// Block `j` and the content before it keep the other lines of that stretch.
#[verifier::rlimit(60)]
proof fn lemma_kept_block(ls: Seq<Seq<char>>, j: int)
    requires
        0 <= j < blocks_of(ls).len(),
        0 <= cursor(blocks_of(ls), j) <= blocks_of(ls)[j].1 <= blocks_of(ls)[j].2 < ls.len(),
    ensures
        kept(emit_block(ls, blocks_of(ls), j)) == kept(
            ls.subrange(cursor(blocks_of(ls), j), blocks_of(ls)[j].2 + 1),
        ),
{
    let b = blocks_of(ls);
    let n = ls.len() as int;
    lemma_scan_facts(ls, n);
    assert(all_blocks(scan(ls, n)) == b);
    lemma_empty_is_blank();
    let c = cursor(b, j);
    let st = b[j].1;
    let en = b[j].2;
    let z: Seq<char> = Seq::empty();
    let seg = ls.subrange(c, st);
    let p = strip_end_lines(seg);
    lemma_kept_strip_end(seg);
    let li = lead_in(ls, b, j);
    lemma_kept_none(seq![z]);
    if p.len() > 0 {
        lemma_kept_append(p, seq![z]);
        assert(p + seq![z] =~= li);
    }
    assert(kept(li) =~= kept(seg));
    let e = sort_entries(classify_all(b[j].0));
    lemma_sorted_lines_clean(b[j].0);
    lemma_kept_render(e);
    lemma_kept_none(seq![z, z]);
    lemma_kept_append(li, render(e));
    lemma_kept_append(li + render(e), seq![z, z]);
    let span = ls.subrange(st, en + 1);
    assert(span_ok(ls, b[j]));
    assert forall|i: int| 0 <= i < span.len() implies !other_line(#[trigger] span[i]) by {
        assert(span[i] == ls[st + i]);
        lemma_trim_twice(ls[st + i]);
    }
    lemma_kept_none(span);
    assert(ls.subrange(c, en + 1) =~= seg + span);
    lemma_kept_append(seg, span);
    assert(emit_block(ls, b, j) == li + render(e) + seq![z, z]);
    assert(kept(emit_block(ls, b, j)) =~= kept(ls.subrange(c, en + 1)));
}

#[verifier::rlimit(60)]
proof fn lemma_kept_upto(ls: Seq<Seq<char>>, k: int)
    requires
        0 <= k <= blocks_of(ls).len(),
    ensures
        kept(emit_upto(ls, blocks_of(ls), k)) == kept(ls.take(cursor(blocks_of(ls), k))),
    decreases k,
{
    let b = blocks_of(ls);
    if k == 0 {
        assert(ls.take(0) =~= Seq::<Seq<char>>::empty());
    } else {
        let j = k - 1;
        lemma_kept_upto(ls, j);
        lemma_block_bounds(ls, j);
        let c = cursor(b, j);
        lemma_kept_block(ls, j);
        assert(ls.take(b[j].2 + 1) =~= ls.take(c) + ls.subrange(c, b[j].2 + 1));
        lemma_kept_append(ls.take(c), ls.subrange(c, b[j].2 + 1));
        lemma_kept_append(emit_upto(ls, b, j), emit_block(ls, b, j));
    }
}

proof fn lemma_block_bounds(ls: Seq<Seq<char>>, j: int)
    requires
        0 <= j < blocks_of(ls).len(),
    ensures
        0 <= cursor(blocks_of(ls), j) <= blocks_of(ls)[j].1 <= blocks_of(ls)[j].2 < ls.len(),
        cursor(blocks_of(ls), j + 1) == blocks_of(ls)[j].2 + 1,
{
    let n = ls.len() as int;
    let b = blocks_of(ls);
    lemma_scan_facts(ls, n);
    assert(all_blocks(scan(ls, n)) == b);
    lemma_block_ends_below(ls, j);
    if j > 0 {
        assert(b[j - 1].2 < b[j].1);
    }
    assert(b[j].1 <= b[j].2);
}

proof fn lemma_block_ends_below(ls: Seq<Seq<char>>, j: int)
    requires
        0 <= j < blocks_of(ls).len(),
    ensures
        blocks_of(ls)[j].2 < ls.len(),
    decreases blocks_of(ls).len() - j,
{
    let n = ls.len() as int;
    lemma_scan_facts(ls, n);
    assert(all_blocks(scan(ls, n)) == blocks_of(ls));
    let b = blocks_of(ls);
    if j < b.len() - 1 {
        lemma_block_ends_below(ls, j + 1);
        assert(b[j].2 < b[j + 1].1);
        assert(b[j + 1].1 <= b[j + 1].2);
    }
}

/// Rebuilding keeps every line that is neither blank nor an import
/// statement, unchanged and in its order.
pub proof fn rebuild_keeps_other_lines(ls: Seq<Seq<char>>)
    ensures
        kept(rebuilt_lines(ls)) == kept(ls),
{
    let b = blocks_of(ls);
    let n = ls.len() as int;
    lemma_kept_upto(ls, b.len() as int);
    let c = cursor(b, b.len() as int);
    assert(0 <= c <= n) by {
        if b.len() > 0 {
            lemma_block_ends_below(ls, b.len() - 1);
            lemma_scan_facts(ls, n);
            assert(all_blocks(scan(ls, n)) == b);
        }
    }
    let tail = ls.subrange(c, n);
    lemma_kept_strip_start(tail);
    lemma_kept_append(emit_upto(ls, b, b.len() as int), strip_start_lines(tail));
    assert(ls =~= ls.take(c) + tail);
    lemma_kept_append(ls.take(c), tail);
}


/// In a rebuilt file with one import block, the block found again holds the
/// sorted import lines at `position` offsets from its first line, a blank
/// line between two categories, and nothing else.
#[verifier::rlimit(80)]
pub proof fn rebuilt_block_spacing(ls: Seq<Seq<char>>)
    requires
        blocks_of(ls).len() == 1,
    ensures
        ({
            let o = rebuilt_lines(ls);
            let nb = blocks_of(o)[0];
            let e = sort_entries(classify_all(blocks_of(ls)[0].0));
            &&& blocks_of(o).len() == 1
            &&& e.len() > 0
            &&& nb.2 == nb.1 + position(e, e.len() - 1)
            &&& forall|k: int| 0 <= k < e.len() ==> o[nb.1 + #[trigger] position(e, k)] == e[k].1
            &&& forall|k: int|
                0 < k < e.len() && e[k - 1].0 != e[k].0 ==> o[nb.1 + #[trigger] position(e, k) - 1]
                    == Seq::<char>::empty()
        }),
{
    lemma_one_block_stable(ls);
    let o = rebuilt_lines(ls);
    let nb = blocks_of(o)[0];
    let x = blocks_of(ls)[0].0;
    let e = sort_entries(classify_all(x));
    let g = render(e);
    render_spacing(e);
    let w = o.subrange(nb.1, nb.2 + 1);
    assert forall|k: int| 0 <= k < e.len() implies o[nb.1 + #[trigger] position(e, k)] == e[k].1 by {
        lemma_position_bound(e, k);
        assert(w[position(e, k)] == g[position(e, k)]);
    }
    assert forall|k: int| 0 < k < e.len() && e[k - 1].0 != e[k].0 implies o[nb.1 + #[trigger] position(
        e,
        k,
    ) - 1] == Seq::<char>::empty() by {
        lemma_position_bound(e, k);
        lemma_position_mono(e, k, k);
        assert(w[position(e, k) - 1] == g[position(e, k) - 1]);
    }
}

} // verus!
