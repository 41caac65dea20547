//! Import statements: recognising them, finding the blocks they form,
//! classifying them and ordering them.

use vstd::prelude::*;
use vstd::seq_lib::group_to_multiset_ensures;
use crate::text::{
    chars_of, has_at, is_ws, lex_le, lex_le_from, lex_less_eq, lower_of, lowercase, occurs, occurs_at,
    occurs_in, skip_non_white, skip_white, skip_word, skip_ws, trim, trimmed,
    lemma_skip_ws_bounds, lemma_skip_word_bounds,
};

verus! {

/// A run of import lines, with blank lines allowed between them.
#[derive(Debug)]
pub struct ImportBlock {
    /// The import lines, trimmed, in file order.
    pub imports: Vec<String>,
    /// Index of the first import line.
    pub start_line: usize,
    /// Index of the last import line.
    pub end_line: usize,
}

/// Category of an import; the variants are listed in sort order.
#[derive(Debug, PartialEq, Eq, Structural, PartialOrd, Ord, Copy, Clone)]
pub enum ImportGroup {
    Future,
    StandardLib,
    ThirdParty,
    LocalLib,
}

/// An import line together with its category.
#[derive(Debug)]
pub struct GroupedImport {
    pub group: ImportGroup,
    pub line: String,
}

/// A block as plain values: import lines, first and last line index.
pub type BlockModel = (Seq<Seq<char>>, int, int);

/// An import line with its category, as plain values.
pub type Entry = (ImportGroup, Seq<char>);

impl View for ImportBlock {
    type V = BlockModel;

    open spec fn view(&self) -> BlockModel {
        (self.imports@.map_values(|s: String| s@), self.start_line as int, self.end_line as int)
    }
}

impl View for GroupedImport {
    type V = Entry;

    open spec fn view(&self) -> Entry {
        (self.group, self.line@)
    }
}

/// `import` at index `i`, white space, then at least one more character.
pub open spec fn import_form_at(s: Seq<char>, i: int) -> bool {
    &&& has_at(s, i, "import"@)
    &&& i + 6 < s.len()
    &&& is_ws(s[i + 6])
    &&& skip_ws(s, i + 6) < s.len()
}

/// `from`, white space, a word, white space, then the `import` form.
pub open spec fn from_form(s: Seq<char>) -> bool {
    let a = skip_ws(s, 4);
    let b = skip_word(s, a);
    &&& has_at(s, 0, "from"@)
    &&& 4 < s.len()
    &&& is_ws(s[4])
    &&& a < s.len()
    &&& b < s.len()
    &&& import_form_at(s, skip_ws(s, b))
}

/// A (trimmed) line that starts an import statement:
/// `import <module>` or `from <module> import <name>`.
pub open spec fn is_import_line(s: Seq<char>) -> bool {
    import_form_at(s, 0) || from_form(s)
}

/// The second white-space separated word of `s`, or nothing.
pub open spec fn module_token(s: Seq<char>) -> Seq<char> {
    let a = skip_ws(s, 0);
    let b = skip_word(s, a);
    let c = skip_ws(s, b);
    let d = skip_word(s, c);
    s.subrange(c, d)
}

/// The first index at or after `i` that holds a `.` (or the length).
pub open spec fn dot_at_or_after(m: Seq<char>, i: int) -> int
    decreases m.len() - i,
{
    if i < 0 || i >= m.len() || m[i] == '.' {
        i
    } else {
        dot_at_or_after(m, i + 1)
    }
}

/// The part of a module path before its first `.`.
pub open spec fn root_module(m: Seq<char>) -> Seq<char> {
    m.take(dot_at_or_after(m, 0))
}

/// The fixed list of standard-library module names.
pub open spec fn is_stdlib_name(r: Seq<char>) -> bool {
    r == "os"@ || r == "sys"@ || r == "time"@ || r == "datetime"@ || r == "collections"@ || r
        == "random"@ || r == "math"@ || r == "json"@ || r == "re"@ || r == "pathlib"@ || r
        == "typing"@
}

/// The category of an import line.
pub open spec fn group_of(s: Seq<char>) -> ImportGroup {
    if occurs_in(s, "__future__"@) {
        ImportGroup::Future
    } else if has_at(s, 0, "from ."@) || has_at(s, 0, "from .."@) {
        ImportGroup::LocalLib
    } else if is_stdlib_name(root_module(module_token(s))) {
        ImportGroup::StandardLib
    } else {
        ImportGroup::ThirdParty
    }
}

/// Position of a category in the sort order.
pub open spec fn rank(g: ImportGroup) -> int {
    match g {
        ImportGroup::Future => 0,
        ImportGroup::StandardLib => 1,
        ImportGroup::ThirdParty => 2,
        ImportGroup::LocalLib => 3,
    }
}

/// Lines that start with `import` sort before all others of their category.
pub open spec fn kind(s: Seq<char>) -> int {
    if has_at(s, 0, "import"@) {
        0
    } else {
        1
    }
}

/// Category and keyword together: the part of the order that decides blocks of lines.
pub open spec fn coarse(e: Entry) -> int {
    2 * rank(e.0) + kind(e.1)
}

/// The sort order: category, then keyword, then the lower-cased line.
pub open spec fn entry_le(a: Entry, b: Entry) -> bool {
    coarse(a) < coarse(b) || (coarse(a) == coarse(b) && lex_le(lower_of(a.1), lower_of(b.1)))
}

/// An import line with its category and the key it is ordered by among the
/// lines of its category and keyword.
pub type Keyed = (ImportGroup, Seq<char>, Seq<char>);

/// `coarse` of a keyed entry.
pub open spec fn coarse_k(e: Keyed) -> int {
    coarse((e.0, e.1))
}

/// The order of keyed entries: category, then keyword, then key.
pub open spec fn keyed_le(a: Keyed, b: Keyed) -> bool {
    coarse_k(a) < coarse_k(b) || (coarse_k(a) == coarse_k(b) && lex_le(a.2, b.2))
}

/// `x` placed after the last element of `r` that is not after it.
pub open spec fn insert_sorted(r: Seq<Keyed>, x: Keyed) -> Seq<Keyed>
    decreases r.len(),
{
    if r.len() == 0 {
        seq![x]
    } else if keyed_le(r.last(), x) {
        r.push(x)
    } else {
        insert_sorted(r.drop_last(), x).push(r.last())
    }
}

/// Stable sort of `s` by `keyed_le`.
pub open spec fn sort_keyed(s: Seq<Keyed>) -> Seq<Keyed>
    decreases s.len(),
{
    if s.len() == 0 {
        Seq::empty()
    } else {
        insert_sorted(sort_keyed(s.drop_last()), s.last())
    }
}

/// Each line with its category and the given key.
pub open spec fn keyed_all(lines: Seq<Seq<char>>, keys: Seq<Seq<char>>) -> Seq<Keyed> {
    Seq::new(lines.len(), |i: int| (group_of(lines[i]), lines[i], keys[i]))
}

/// Entries keyed by their lower-cased line.
pub open spec fn with_keys(s: Seq<Entry>) -> Seq<Keyed> {
    s.map_values(|e: Entry| (e.0, e.1, lower_of(e.1)))
}

/// Keyed entries without their keys.
pub open spec fn unkeyed(s: Seq<Keyed>) -> Seq<Entry> {
    s.map_values(|e: Keyed| (e.0, e.1))
}

/// Stable sort of `s` by `entry_le`.
pub open spec fn sort_entries(s: Seq<Entry>) -> Seq<Entry> {
    unkeyed(sort_keyed(with_keys(s)))
}

/// Each line with its category.
pub open spec fn classify_all(lines: Seq<Seq<char>>) -> Seq<Entry> {
    lines.map_values(|l: Seq<char>| (group_of(l), l))
}

/// The lines of a sequence of entries.
pub open spec fn lines_of(e: Seq<Entry>) -> Seq<Seq<char>> {
    e.map_values(|x: Entry| x.1)
}

/// The lines of a sequence of keyed entries.
pub open spec fn klines(e: Seq<Keyed>) -> Seq<Seq<char>> {
    e.map_values(|x: Keyed| x.1)
}

/// Whether `s` equals the literal `lit`.
fn is_literal(s: &Vec<char>, lit: &str) -> (r: bool)
    ensures
        r == (s@ == lit@),
{
    let p = chars_of(lit);
    if s.len() != p.len() {
        return false;
    }
    let r = occurs_at(s, 0, &p);
    assert(s@.subrange(0, p@.len() as int) =~= s@);
    r
}

/// Whether the root module name is one of the standard library's.
fn is_stdlib_module(r: &Vec<char>) -> (b: bool)
    ensures
        b == is_stdlib_name(r@),
{
    is_literal(r, "os") || is_literal(r, "sys") || is_literal(r, "time") || is_literal(
        r,
        "datetime",
    ) || is_literal(r, "collections") || is_literal(r, "random") || is_literal(r, "math")
        || is_literal(r, "json") || is_literal(r, "re") || is_literal(r, "pathlib")
        || is_literal(r, "typing")
}

/// Whether the `import` form starts at index `i` of `s`.
fn import_form(s: &Vec<char>, i: usize) -> (r: bool)
    requires
        i <= s@.len(),
    ensures
        r == import_form_at(s@, i as int),
{
    let kw = chars_of("import");
    proof {
        reveal_strlit("import");
    }
    if !occurs_at(s, i, &kw) {
        return false;
    }
    if s.len() - i <= 6 || !is_white_space_at(s, i + 6) {
        return false;
    }
    skip_white(s, i + 6) < s.len()
}

fn is_white_space_at(s: &Vec<char>, i: usize) -> (r: bool)
    requires
        i < s@.len(),
    ensures
        r == is_ws(s@[i as int]),
{
    crate::text::is_white_space(s[i])
}

/// Whether a trimmed line is an import statement.
pub fn is_import_statement(s: &Vec<char>) -> (r: bool)
    ensures
        r == is_import_line(s@),
{
    if import_form(s, 0) {
        return true;
    }
    let kw = chars_of("from");
    proof {
        reveal_strlit("from");
    }
    if !occurs_at(s, 0, &kw) || s.len() <= 4 || !is_white_space_at(s, 4) {
        return false;
    }
    let a = skip_white(s, 4);
    proof {
        lemma_skip_ws_bounds(s@, 4);
    }
    if a >= s.len() {
        return false;
    }
    let b = skip_non_white(s, a);
    proof {
        lemma_skip_word_bounds(s@, a as int);
    }
    if b >= s.len() {
        return false;
    }
    let c = skip_white(s, b);
    proof {
        lemma_skip_ws_bounds(s@, b as int);
    }
    import_form(s, c)
}


/// The characters `s@[lo..hi]`.
fn copy_range(s: &Vec<char>, lo: usize, hi: usize) -> (r: Vec<char>)
    requires
        lo <= hi <= s@.len(),
    ensures
        r@ == s@.subrange(lo as int, hi as int),
{
    let mut r: Vec<char> = Vec::new();
    let mut k = lo;
    while k < hi
        invariant
            lo <= k <= hi <= s@.len(),
            r@ == s@.subrange(lo as int, k as int),
        decreases hi - k,
    {
        r.push(s[k]);
        k = k + 1;
        assert(r@ =~= s@.subrange(lo as int, k as int));
    }
    r
}

/// The category of an import line: future-compatibility imports, relative
/// imports, standard-library imports by their root module, all else third-party.
pub fn determine_import_group(import: &str) -> (r: ImportGroup)
    ensures
        r == group_of(import@),
{
    let s = chars_of(import);
    if occurs(&s, &chars_of("__future__")) {
        return ImportGroup::Future;
    }
    if occurs_at(&s, 0, &chars_of("from .")) || occurs_at(&s, 0, &chars_of("from ..")) {
        return ImportGroup::LocalLib;
    }
    let a = skip_white(&s, 0);
    proof {
        lemma_skip_ws_bounds(s@, 0);
    }
    let b = skip_non_white(&s, a);
    proof {
        lemma_skip_word_bounds(s@, a as int);
    }
    let c = skip_white(&s, b);
    proof {
        lemma_skip_ws_bounds(s@, b as int);
    }
    let d = skip_non_white(&s, c);
    proof {
        lemma_skip_word_bounds(s@, c as int);
    }
    let m = copy_range(&s, c, d);
    let mut e: usize = 0;
    while e < m.len() && m[e] != '.'
        invariant
            e <= m@.len(),
            dot_at_or_after(m@, e as int) == dot_at_or_after(m@, 0),
        decreases m@.len() - e,
    {
        e = e + 1;
    }
    let root = copy_range(&m, 0, e);
    assert(root@ =~= root_module(m@));
    if is_stdlib_module(&root) {
        ImportGroup::StandardLib
    } else {
        ImportGroup::ThirdParty
    }
}

/// `coarse` of an entry, computed.
fn coarse_of(g: ImportGroup, line: &str) -> (r: u8)
    ensures
        r as int == coarse((g, line@)),
{
    let kw = chars_of("import");
    let k: u8 = if occurs_at(&chars_of(line), 0, &kw) {
        0
    } else {
        1
    };
    let base: u8 = match g {
        ImportGroup::Future => 0,
        ImportGroup::StandardLib => 2,
        ImportGroup::ThirdParty => 4,
        ImportGroup::LocalLib => 6,
    };
    base + k
}

proof fn lemma_insert_position(r: Seq<Keyed>, x: Keyed, j: int)
    requires
        0 <= j <= r.len(),
        j == 0 || keyed_le(r[j - 1], x),
        forall|k: int| j <= k < r.len() ==> !keyed_le(#[trigger] r[k], x),
    ensures
        insert_sorted(r, x) == r.insert(j, x),
    decreases r.len(),
{
    if r.len() == 0 {
        assert(r.insert(j, x) =~= seq![x]);
    } else if j == r.len() {
        assert(r.insert(j, x) =~= r.push(x));
    } else {
        assert(!keyed_le(r[r.len() - 1], x));
        lemma_insert_position(r.drop_last(), x, j);
        assert(r.insert(j, x) =~= r.drop_last().insert(j, x).push(r.last()));
    }
}

/// Each import line with its category, sorted stably by category, then
/// `import` lines before the others, then by the key given for the line.
pub fn sort_imports_by_keys(imports: &[String], keys: &[String]) -> (r: Vec<GroupedImport>)
    requires
        keys@.len() == imports@.len(),
    ensures
        r@.map_values(|g: GroupedImport| g@) == unkeyed(
            sort_keyed(
                keyed_all(
                    imports@.map_values(|s: String| s@),
                    keys@.map_values(|s: String| s@),
                ),
            ),
        ),
{
    let ghost input = keyed_all(
        imports@.map_values(|s: String| s@),
        keys@.map_values(|s: String| s@),
    );
    let mut out: Vec<GroupedImport> = Vec::new();
    let mut out_keys: Vec<Vec<char>> = Vec::new();
    let mut coarses: Vec<u8> = Vec::new();
    let ghost mut sorted: Seq<Keyed> = Seq::empty();
    let mut i: usize = 0;
    while i < imports.len()
        invariant
            i <= imports@.len(),
            keys@.len() == imports@.len(),
            input == keyed_all(
                imports@.map_values(|s: String| s@),
                keys@.map_values(|s: String| s@),
            ),
            out@.len() == out_keys@.len() == coarses@.len() == sorted.len(),
            forall|k: int|
                0 <= k < out@.len() ==> (#[trigger] sorted[k]) == (
                    out@[k].group,
                    out@[k].line@,
                    out_keys@[k]@,
                ),
            forall|k: int| 0 <= k < out@.len() ==> coarses@[k] as int == coarse_k(#[trigger] sorted[k]),
            sorted == sort_keyed(input.take(i as int)),
        decreases imports@.len() - i,
    {
        let line = imports[i].clone();
        let g = determine_import_group(line.as_str());
        let key = chars_of(keys[i].as_str());
        let c = coarse_of(g, line.as_str());
        let ghost x: Keyed = (g, line@, key@);
        let mut j = out.len();
        while j > 0 && !(coarses[j - 1] < c || (coarses[j - 1] == c && lex_less_eq(
            &out_keys[j - 1],
            &key,
        )))
            invariant
                j <= out@.len(),
                x == (g, line@, key@),
                c as int == coarse_k(x),
                out@.len() == out_keys@.len() == coarses@.len() == sorted.len(),
                forall|k: int|
                    0 <= k < out@.len() ==> (#[trigger] sorted[k]) == (
                        out@[k].group,
                        out@[k].line@,
                        out_keys@[k]@,
                    ),
                forall|k: int|
                    0 <= k < out@.len() ==> coarses@[k] as int == coarse_k(#[trigger] sorted[k]),
                forall|k: int| j <= k < sorted.len() ==> !keyed_le(#[trigger] sorted[k], x),
            decreases j,
        {
            j = j - 1;
        }
        proof {
            lemma_insert_position(sorted, x, j as int);
            assert(input.take(i + 1).drop_last() =~= input.take(i as int));
            assert(input[i as int] == x);
        }
        out.insert(j, GroupedImport { group: g, line });
        out_keys.insert(j, key);
        coarses.insert(j, c);
        proof {
            sorted = sorted.insert(j as int, x);
        }
        i = i + 1;
    }
    proof {
        assert(input.take(i as int) =~= input);
        assert(out@.map_values(|g: GroupedImport| g@) =~= unkeyed(sorted));
    }
    out
}

/// Each import line with its category, sorted stably by category, then
/// `import` lines before the others, then by the lower-cased line.
pub fn group_and_sort_imports(imports: &[String]) -> (r: Vec<GroupedImport>)
    ensures
        r@.map_values(|g: GroupedImport| g@) == sort_entries(
            classify_all(imports@.map_values(|s: String| s@)),
        ),
{
    let mut keys: Vec<String> = Vec::new();
    let mut i: usize = 0;
    while i < imports.len()
        invariant
            i <= imports@.len(),
            keys@.len() == i,
            forall|k: int| 0 <= k < i ==> (#[trigger] keys@[k])@ == lower_of(imports@[k]@),
        decreases imports@.len() - i,
    {
        keys.push(lowercase(imports[i].as_str()));
        i = i + 1;
    }
    let r = sort_imports_by_keys(imports, keys.as_slice());
    proof {
        let lines = imports@.map_values(|s: String| s@);
        assert(keyed_all(lines, keys@.map_values(|s: String| s@)) =~= with_keys(classify_all(lines)));
    }
    r
}

/// The text of each line.
pub open spec fn line_views(lines: Seq<&str>) -> Seq<Seq<char>> {
    lines.map_values(|s: &str| s@)
}

/// Blocks closed so far, and the block still open if there is one.
pub type ScanState = (Seq<BlockModel>, Option<BlockModel>);

/// One line, at index `i`, read into the scanner state: an import line joins
/// (or opens) the open block, a blank line leaves it open, any other line closes it.
pub open spec fn scan_step(st: ScanState, line: Seq<char>, i: int) -> ScanState {
    let t = trim(line);
    if is_import_line(t) {
        match st.1 {
            Some(b) => (st.0, Some((b.0.push(t), b.1, i))),
            None => (st.0, Some((seq![t], i, i))),
        }
    } else if t.len() == 0 && st.1 is Some {
        st
    } else {
        match st.1 {
            Some(b) => (st.0.push(b), None),
            None => st,
        }
    }
}

/// The scanner state after the first `n` lines.
pub open spec fn scan(lines: Seq<Seq<char>>, n: int) -> ScanState
    decreases n,
{
    if n <= 0 {
        (Seq::empty(), None)
    } else {
        scan_step(scan(lines, n - 1), lines[n - 1], n - 1)
    }
}

/// The import blocks of a file, in file order.
pub open spec fn blocks_of(lines: Seq<Seq<char>>) -> Seq<BlockModel> {
    let st = scan(lines, lines.len() as int);
    match st.1 {
        Some(b) => st.0.push(b),
        None => st.0,
    }
}

/// Blocks hold at least one line, lie within `n` lines, and follow each other.
pub open spec fn blocks_well_formed(b: Seq<BlockModel>, n: int) -> bool {
    &&& forall|k: int|
        0 <= k < b.len() ==> 0 <= (#[trigger] b[k]).1 <= b[k].2 < n && b[k].0.len() >= 1
    &&& forall|k: int| 0 < k < b.len() ==> b[k - 1].2 < (#[trigger] b[k]).1
}

/// The import blocks of a file given as its lines: each a maximal run of
/// import lines, in which blank lines may stand between import lines.
pub fn find_import_blocks(lines: &[&str]) -> (r: Vec<ImportBlock>)
    ensures
        r@.map_values(|b: ImportBlock| b@) == blocks_of(line_views(lines@)),
        blocks_well_formed(r@.map_values(|b: ImportBlock| b@), lines@.len() as int),
{
    let ghost ls = line_views(lines@);
    let mut blocks: Vec<ImportBlock> = Vec::new();
    let mut open = false;
    let mut cur: Vec<String> = Vec::new();
    let mut start: usize = 0;
    let mut end: usize = 0;
    let mut i: usize = 0;
    while i < lines.len()
        invariant
            i <= lines@.len(),
            ls == line_views(lines@),
            (blocks@.map_values(|b: ImportBlock| b@), if open {
                Some((cur@.map_values(|s: String| s@), start as int, end as int))
            } else {
                None::<BlockModel>
            }) == scan(ls, i as int),
            blocks_well_formed(blocks@.map_values(|b: ImportBlock| b@), i as int),
            open ==> start <= end < i && cur@.len() >= 1,
            open && blocks@.len() > 0 ==> blocks@.last().end_line < start,
        decreases lines@.len() - i,
    {
        let t = trimmed(lines[i]);
        let tc = chars_of(t);
        let ghost bv = blocks@.map_values(|b: ImportBlock| b@);
        if is_import_statement(&tc) {
            if open {
                cur.push(t.to_owned());
                end = i;
            } else {
                proof {
                    if blocks@.len() > 0 {
                        assert(bv[bv.len() - 1] == blocks@.last()@);
                    }
                }
                cur = Vec::new();
                cur.push(t.to_owned());
                open = true;
                start = i;
                end = i;
            }
            assert(blocks@.map_values(|b: ImportBlock| b@) == bv);
        } else if tc.len() == 0 && open {
        } else if open {
            let done = cur;
            cur = Vec::new();
            blocks.push(ImportBlock { imports: done, start_line: start, end_line: end });
            open = false;
            assert(blocks@.map_values(|b: ImportBlock| b@) =~= bv.push(
                (done@.map_values(|s: String| s@), start as int, end as int),
            ));
        }
        proof {
            assert(ls[i as int] == lines@[i as int]@);
        }
        i = i + 1;
    }
    if open {
        let ghost bv = blocks@.map_values(|b: ImportBlock| b@);
        blocks.push(ImportBlock { imports: cur, start_line: start, end_line: end });
        assert(blocks@.map_values(|b: ImportBlock| b@) =~= bv.push(
            (cur@.map_values(|s: String| s@), start as int, end as int),
        ));
    }
    blocks
}


/// Categories and keywords never decrease along `s`.
pub open spec fn coarse_sorted(s: Seq<Keyed>) -> bool {
    forall|i: int, j: int| 0 <= i < j < s.len() ==> coarse_k(#[trigger] s[i]) <= coarse_k(#[trigger] s[j])
}

proof fn lemma_insert_keeps_lines(r: Seq<Keyed>, x: Keyed)
    ensures
        klines(insert_sorted(r, x)).to_multiset() =~= klines(r).to_multiset().insert(x.1),
    decreases r.len(),
{
    broadcast use group_to_multiset_ensures;

    if r.len() == 0 {
        assert(klines(seq![x]) =~= klines(r).push(x.1));
    } else if keyed_le(r.last(), x) {
        assert(klines(r.push(x)) =~= klines(r).push(x.1));
    } else {
        let r2 = r.drop_last();
        lemma_insert_keeps_lines(r2, x);
        assert(klines(insert_sorted(r2, x).push(r.last())) =~= klines(insert_sorted(r2, x)).push(
            r.last().1,
        ));
        assert(klines(r) =~= klines(r2).push(r.last().1));
    }
}

proof fn lemma_sort_keeps_lines(s: Seq<Keyed>)
    ensures
        klines(sort_keyed(s)).to_multiset() =~= klines(s).to_multiset(),
    decreases s.len(),
{
    broadcast use group_to_multiset_ensures;

    if s.len() > 0 {
        lemma_sort_keeps_lines(s.drop_last());
        lemma_insert_keeps_lines(sort_keyed(s.drop_last()), s.last());
        assert(klines(s) =~= klines(s.drop_last()).push(s.last().1));
    }
}

proof fn lemma_insert_bounded(r: Seq<Keyed>, x: Keyed, b: int)
    requires
        coarse_k(x) <= b,
        forall|k: int| 0 <= k < r.len() ==> coarse_k(#[trigger] r[k]) <= b,
    ensures
        insert_sorted(r, x).len() == r.len() + 1,
        forall|k: int| 0 <= k < r.len() + 1 ==> coarse_k(#[trigger] insert_sorted(r, x)[k]) <= b,
    decreases r.len(),
{
    if r.len() > 0 && !keyed_le(r.last(), x) {
        lemma_insert_bounded(r.drop_last(), x, b);
    }
}

proof fn lemma_insert_sorted_order(r: Seq<Keyed>, x: Keyed)
    requires
        coarse_sorted(r),
    ensures
        coarse_sorted(insert_sorted(r, x)),
        insert_sorted(r, x).len() == r.len() + 1,
    decreases r.len(),
{
    if r.len() == 0 {
    } else if keyed_le(r.last(), x) {
        let t = r.push(x);
        assert forall|i: int, j: int| 0 <= i < j < t.len() implies coarse_k(#[trigger] t[i]) <= coarse_k(
            #[trigger] t[j],
        ) by {
            if j == r.len() && i < r.len() - 1 {
                assert(coarse_k(r[i]) <= coarse_k(r[r.len() - 1]));
            }
        }
    } else {
        let r2 = r.drop_last();
        let l = r.last();
        lemma_insert_sorted_order(r2, x);
        assert forall|k: int| 0 <= k < r2.len() implies coarse_k(#[trigger] r2[k]) <= coarse_k(l) by {
            assert(coarse_k(r[k]) <= coarse_k(r[r.len() - 1]));
        }
        lemma_insert_bounded(r2, x, coarse_k(l));
        let t = insert_sorted(r2, x);
        assert forall|i: int, j: int| 0 <= i < j < t.push(l).len() implies coarse_k(
            #[trigger] t.push(l)[i],
        ) <= coarse_k(#[trigger] t.push(l)[j]) by {
            if j < t.len() {
                assert(t.push(l)[i] == t[i] && t.push(l)[j] == t[j]);
            } else {
                assert(t.push(l)[i] == t[i]);
            }
        }
    }
}

proof fn lemma_sort_order(s: Seq<Keyed>)
    ensures
        coarse_sorted(sort_keyed(s)),
        sort_keyed(s).len() == s.len(),
    decreases s.len(),
{
    if s.len() > 0 {
        lemma_sort_order(s.drop_last());
        lemma_insert_sorted_order(sort_keyed(s.drop_last()), s.last());
    }
}

proof fn lemma_sorted_block(lines: Seq<Seq<char>>)
    ensures
        ({
            let y = with_keys(classify_all(lines));
            let t = sort_keyed(y);
            &&& sort_entries(classify_all(lines)) == unkeyed(t)
            &&& t.len() == lines.len()
            &&& coarse_sorted(t)
            &&& sorted_by_key(t)
            &&& consistent(t)
            &&& klines(t).to_multiset() == lines.to_multiset()
        }),
{
    let c = classify_all(lines);
    let y = with_keys(c);
    lemma_sort_order(y);
    lemma_sort_sorted(y);
    lemma_sort_classified(y);
    lemma_sort_keeps_lines(y);
    assert(klines(y) =~= lines);
}

/// Sorting a block neither adds nor drops import lines: the sorted lines are
/// the given lines, each as many times as it was given.
pub proof fn sort_keeps_every_line(lines: Seq<Seq<char>>)
    ensures
        lines_of(sort_entries(classify_all(lines))).to_multiset() == lines.to_multiset(),
{
    lemma_sorted_block(lines);
    let t = sort_keyed(with_keys(classify_all(lines)));
    assert(lines_of(unkeyed(t)) =~= klines(t));
}

/// In a sorted block no import stands before one of a lower category.
pub proof fn sort_orders_categories(lines: Seq<Seq<char>>)
    ensures
        forall|i: int, j: int|
            0 <= i < j < sort_entries(classify_all(lines)).len() ==> rank(
                #[trigger] sort_entries(classify_all(lines))[i].0,
            ) <= rank(#[trigger] sort_entries(classify_all(lines))[j].0),
{
    lemma_sorted_block(lines);
    let t = sort_keyed(with_keys(classify_all(lines)));
    let s = sort_entries(classify_all(lines));
    assert forall|i: int, j: int| 0 <= i < j < s.len() implies rank(#[trigger] s[i].0) <= rank(
        #[trigger] s[j].0,
    ) by {
        assert(coarse_k(t[i]) <= coarse_k(t[j]));
        assert(s[i] == (t[i].0, t[i].1) && s[j] == (t[j].0, t[j].1));
    }
}

/// Within one category of a sorted block, every `import X` line stands before
/// every `from Y import Z` line.
pub proof fn sort_puts_plain_imports_first(lines: Seq<Seq<char>>)
    ensures
        forall|i: int, j: int|
            0 <= i < sort_entries(classify_all(lines)).len() && 0 <= j < sort_entries(
                classify_all(lines),
            ).len() && (#[trigger] sort_entries(classify_all(lines))[i]).0 == (
            #[trigger] sort_entries(classify_all(lines))[j]).0 && has_at(
                sort_entries(classify_all(lines))[i].1,
                0,
                "import"@,
            ) && has_at(sort_entries(classify_all(lines))[j].1, 0, "from"@) ==> i < j,
{
    lemma_sorted_block(lines);
    let t = sort_keyed(with_keys(classify_all(lines)));
    let s = sort_entries(classify_all(lines));
    reveal_strlit("import");
    reveal_strlit("from");
    assert forall|i: int, j: int|
        0 <= i < s.len() && 0 <= j < s.len() && (#[trigger] s[i]).0 == (#[trigger] s[j]).0
            && has_at(s[i].1, 0, "import"@) && has_at(s[j].1, 0, "from"@) implies i < j by {
        assert(s[i] == (t[i].0, t[i].1) && s[j] == (t[j].0, t[j].1));
        assert(s[i].1.subrange(0, 6)[0] == s[i].1[0]);
        assert(s[j].1.subrange(0, 4)[0] == s[j].1[0]);
        if j < i {
            assert(coarse_k(t[j]) <= coarse_k(t[i]));
            assert(s[j].1.subrange(0, 6)[0] == s[j].1[0]);
        }
    }
}

/// A sorted block is in sort order: each line comes no later than the next by
/// category, then keyword, then lower-cased line.
pub proof fn sort_result_is_ordered(lines: Seq<Seq<char>>)
    ensures
        forall|i: int|
            0 <= i < sort_entries(classify_all(lines)).len() - 1 ==> entry_le(
                #[trigger] sort_entries(classify_all(lines))[i],
                sort_entries(classify_all(lines))[i + 1],
            ),
{
    lemma_sorted_block(lines);
    let t = sort_keyed(with_keys(classify_all(lines)));
    let s = sort_entries(classify_all(lines));
    assert forall|i: int| 0 <= i < s.len() - 1 implies entry_le(#[trigger] s[i], s[i + 1]) by {
        assert(keyed_le(t[i], t[i + 1]));
        assert(s[i] == (t[i].0, t[i].1) && s[i + 1] == (t[i + 1].0, t[i + 1].1));
        assert(t[i].2 == lower_of(t[i].1) && t[i + 1].2 == lower_of(t[i + 1].1));
    }
}

/// Each pair of neighbours of `s` is in sort order.
pub open spec fn sorted_by_key(s: Seq<Keyed>) -> bool {
    forall|i: int| 0 <= i < s.len() - 1 ==> keyed_le(#[trigger] s[i], s[i + 1])
}

/// Each entry of `s` carries the category and the lower-cased form of its line.
pub open spec fn consistent(s: Seq<Keyed>) -> bool {
    forall|k: int|
        0 <= k < s.len() ==> (#[trigger] s[k]).0 == group_of(s[k].1) && s[k].2 == lower_of(s[k].1)
}

proof fn lemma_lex_total(a: Seq<char>, b: Seq<char>, i: int)
    requires
        0 <= i,
    ensures
        lex_le_from(a, b, i) || lex_le_from(b, a, i),
    decreases a.len() - i,
{
    if i < a.len() && i < b.len() && (a[i] as u32) == (b[i] as u32) {
        lemma_lex_total(a, b, i + 1);
    }
}

proof fn lemma_entry_total(a: Keyed, b: Keyed)
    ensures
        keyed_le(a, b) || keyed_le(b, a),
{
    lemma_lex_total(a.2, b.2, 0);
}

proof fn lemma_insert_keeps_sorted(r: Seq<Keyed>, x: Keyed)
    requires
        sorted_by_key(r),
    ensures
        sorted_by_key(insert_sorted(r, x)),
        insert_sorted(r, x).len() == r.len() + 1,
        insert_sorted(r, x).last() == x || (r.len() > 0 && insert_sorted(r, x).last() == r.last()),
    decreases r.len(),
{
    if r.len() == 0 {
    } else if keyed_le(r.last(), x) {
        let t = r.push(x);
        assert forall|i: int| 0 <= i < t.len() - 1 implies keyed_le(#[trigger] t[i], t[i + 1]) by {
            if i < r.len() - 1 {
                assert(keyed_le(r[i], r[i + 1]));
            }
        }
    } else {
        let r2 = r.drop_last();
        let l = r.last();
        assert forall|i: int| 0 <= i < r2.len() - 1 implies keyed_le(#[trigger] r2[i], r2[i + 1]) by {
            assert(keyed_le(r[i], r[i + 1]));
        }
        lemma_insert_keeps_sorted(r2, x);
        let t = insert_sorted(r2, x);
        lemma_entry_total(l, x);
        if r2.len() > 0 {
            assert(keyed_le(r[r.len() - 2], r[r.len() - 1]));
        }
        assert(keyed_le(t.last(), l));
        assert forall|i: int| 0 <= i < t.push(l).len() - 1 implies keyed_le(
            #[trigger] t.push(l)[i],
            t.push(l)[i + 1],
        ) by {
            if i < t.len() - 1 {
                assert(keyed_le(t[i], t[i + 1]));
            }
        }
    }
}

proof fn lemma_sort_sorted(s: Seq<Keyed>)
    ensures
        sorted_by_key(sort_keyed(s)),
    decreases s.len(),
{
    if s.len() > 0 {
        lemma_sort_sorted(s.drop_last());
        lemma_insert_keeps_sorted(sort_keyed(s.drop_last()), s.last());
    }
}

proof fn lemma_sort_of_sorted(s: Seq<Keyed>)
    requires
        sorted_by_key(s),
    ensures
        sort_keyed(s) == s,
    decreases s.len(),
{
    if s.len() > 0 {
        let r = s.drop_last();
        assert forall|i: int| 0 <= i < r.len() - 1 implies keyed_le(#[trigger] r[i], r[i + 1]) by {
            assert(keyed_le(s[i], s[i + 1]));
        }
        lemma_sort_of_sorted(r);
        if r.len() > 0 {
            assert(keyed_le(s[s.len() - 2], s[s.len() - 1]));
            assert(r.push(s.last()) =~= s);
        } else {
            assert(seq![s.last()] =~= s);
        }
    }
}

proof fn lemma_insert_classified(r: Seq<Keyed>, x: Keyed)
    requires
        consistent(r),
        x.0 == group_of(x.1),
        x.2 == lower_of(x.1),
    ensures
        consistent(insert_sorted(r, x)),
        insert_sorted(r, x).len() == r.len() + 1,
    decreases r.len(),
{
    if r.len() > 0 && !keyed_le(r.last(), x) {
        lemma_insert_classified(r.drop_last(), x);
        let t = insert_sorted(r.drop_last(), x).push(r.last());
        assert forall|k: int| 0 <= k < t.len() implies (#[trigger] t[k]).0 == group_of(t[k].1)
            && t[k].2 == lower_of(t[k].1) by {
            if k == t.len() - 1 {
                assert(r[r.len() - 1].0 == group_of(r[r.len() - 1].1) && r[r.len() - 1].2 == lower_of(
                    r[r.len() - 1].1,
                ));
            }
        }
    }
}

proof fn lemma_sort_classified(s: Seq<Keyed>)
    requires
        consistent(s),
    ensures
        consistent(sort_keyed(s)),
        sort_keyed(s).len() == s.len(),
    decreases s.len(),
{
    if s.len() > 0 {
        lemma_sort_classified(s.drop_last());
        lemma_insert_classified(sort_keyed(s.drop_last()), s.last());
    }
}

/// Sorting the lines of a block that is already sorted changes nothing.
pub proof fn sort_again_changes_nothing(lines: Seq<Seq<char>>)
    ensures
        sort_entries(classify_all(lines_of(sort_entries(classify_all(lines))))) == sort_entries(
            classify_all(lines),
        ),
{
    lemma_sorted_block(lines);
    let t = sort_keyed(with_keys(classify_all(lines)));
    let again = lines_of(unkeyed(t));
    assert(with_keys(classify_all(again)) =~= t);
    lemma_sort_of_sorted(t);
}

} // verus!
