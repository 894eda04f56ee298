//! The library's general guarantees, stated over the rendering
//! specification and proved once and for all.

use crate::color::spec_color_of;
use crate::render::child_prefix;
use crate::render::comps_tail;
use crate::render::comps_text;
use crate::render::connector;
use crate::render::forest_records;
use crate::render::forest_size;
use crate::render::id_text;
use crate::render::label_text;
use crate::render::line_of;
use crate::render::lines_of;
use crate::render::printed_prefix;
use crate::render::record_of;
use crate::render::records_of;
use crate::render::spec_render;
use crate::render::styled_label;
use crate::render::tree_size;
use crate::render::Record;
use crate::render::Tree;
use crate::store::EntityId;
use crate::store::NodeView;
use crate::text::dec_digits;
use crate::text::digit_char;
use vstd::prelude::*;

verus! {

// ------------------------------------------------------------------
// Determinism.
// ------------------------------------------------------------------

/// Rendering is deterministic: for a fixed snapshot, root and colorize
/// setting, any two renderings are byte-identical. The executable renderer
/// ensures its output equals `spec_render`, a function of those three
/// values alone, so two runs cannot differ.
pub proof fn lemma_render_deterministic(
    s: Seq<NodeView>,
    root: EntityId,
    colorize: bool,
    o1: Seq<char>,
    o2: Seq<char>,
)
    requires
        o1 == spec_render(s, root, colorize),
        o2 == spec_render(s, root, colorize),
    ensures
        o1 == o2,
{
}

// ------------------------------------------------------------------
// Pre-order completeness.
// ------------------------------------------------------------------

/// `id` names a node somewhere in the subtree at `t`.
pub open spec fn in_tree(t: Tree, id: EntityId) -> bool
    decreases t,
{
    t.id == id || in_forest(t.kids, 0, id)
}

/// `id` names a node somewhere in the subtrees `ts[i..]`.
pub open spec fn in_forest(ts: Seq<Tree>, i: int, id: EntityId) -> bool
    decreases ts, ts.len() - i,
{
    if 0 <= i < ts.len() {
        in_tree(ts[i], id) || in_forest(ts, i + 1, id)
    } else {
        false
    }
}

/// Some record of `rs` visits `id`.
pub open spec fn rec_contains(rs: Seq<Record>, id: EntityId) -> bool {
    exists|j: int| 0 <= j < rs.len() && rs[j].id == id
}

proof fn lemma_rec_contains_concat(a: Seq<Record>, b: Seq<Record>)
    ensures
        forall|id: EntityId|
            rec_contains(a + b, id) <==> rec_contains(a, id) || rec_contains(b, id),
{
    assert forall|id: EntityId|
        rec_contains(a + b, id) implies rec_contains(a, id) || rec_contains(b, id) by {
        let j = choose|j: int| 0 <= j < (a + b).len() && (a + b)[j].id == id;
        if j < a.len() {
            assert(a[j].id == id);
        } else {
            assert(b[j - a.len()].id == id);
        }
    }
    assert forall|id: EntityId|
        rec_contains(a, id) || rec_contains(b, id) implies rec_contains(a + b, id) by {
        if rec_contains(a, id) {
            let j = choose|j: int| 0 <= j < a.len() && a[j].id == id;
            assert((a + b)[j].id == id);
        } else {
            let j = choose|j: int| 0 <= j < b.len() && b[j].id == id;
            assert((a + b)[j + a.len()].id == id);
        }
    }
}

/// Pre-order completeness, one subtree: the traversal emits exactly
/// `tree_size(t)` records, the subtree's root comes first — so every
/// node's record precedes all of its descendants' records — and the
/// records visit precisely the nodes reachable in the subtree.
pub proof fn lemma_preorder_complete(t: Tree, prefix: Seq<char>, last: bool)
    ensures
        records_of(t, prefix, last).len() == tree_size(t),
        records_of(t, prefix, last)[0] == record_of(t, prefix, last),
        forall|id: EntityId| rec_contains(records_of(t, prefix, last), id) <==> in_tree(t, id),
    decreases t,
{
    let rec = record_of(t, prefix, last);
    let frs = forest_records(t.kids, child_prefix(prefix, last), 0);
    let rs = records_of(t, prefix, last);
    assert(rs == seq![rec] + frs);
    lemma_forest_complete(t.kids, child_prefix(prefix, last), 0);
    lemma_rec_contains_concat(seq![rec], frs);
    assert forall|id: EntityId| rec_contains(rs, id) implies in_tree(t, id) by {
        assert(rec_contains(seq![rec] + frs, id));
        if rec_contains(seq![rec], id) {
            let j = choose|j: int| 0 <= j < seq![rec].len() && seq![rec][j].id == id;
            assert(j == 0);
            assert(t.id == id);
        } else {
            assert(rec_contains(frs, id));
            assert(in_forest(t.kids, 0, id));
        }
    }
    assert forall|id: EntityId| in_tree(t, id) implies rec_contains(rs, id) by {
        if t.id == id {
            assert(seq![rec][0].id == id);
            assert(rec_contains(seq![rec], id));
        } else {
            assert(in_forest(t.kids, 0, id));
            assert(rec_contains(frs, id));
        }
        assert(rec_contains(seq![rec] + frs, id));
    }
}

/// Pre-order completeness over the sibling subtrees `ts[i..]`.
pub proof fn lemma_forest_complete(ts: Seq<Tree>, prefix: Seq<char>, i: int)
    ensures
        forest_records(ts, prefix, i).len() == forest_size(ts, i),
        forall|id: EntityId| rec_contains(forest_records(ts, prefix, i), id) <==> in_forest(
            ts,
            i,
            id,
        ),
    decreases ts, ts.len() - i,
{
    if 0 <= i < ts.len() {
        let a = records_of(ts[i], prefix, i == ts.len() - 1);
        let b = forest_records(ts, prefix, i + 1);
        let fr = forest_records(ts, prefix, i);
        assert(fr == a + b);
        lemma_preorder_complete(ts[i], prefix, i == ts.len() - 1);
        lemma_forest_complete(ts, prefix, i + 1);
        lemma_rec_contains_concat(a, b);
        assert forall|id: EntityId| rec_contains(fr, id) implies in_forest(ts, i, id) by {
            assert(rec_contains(a + b, id));
            if rec_contains(a, id) {
                assert(in_tree(ts[i], id));
            } else {
                assert(in_forest(ts, i + 1, id));
            }
        }
        assert forall|id: EntityId| in_forest(ts, i, id) implies rec_contains(fr, id) by {
            if in_tree(ts[i], id) {
                assert(rec_contains(a, id));
            } else {
                assert(in_forest(ts, i + 1, id));
                assert(rec_contains(b, id));
            }
            assert(rec_contains(a + b, id));
        }
    } else {
        assert forall|id: EntityId| !rec_contains(forest_records(ts, prefix, i), id) by {
            assert(forest_records(ts, prefix, i).len() == 0);
        }
    }
}

/// No identity names two different nodes of the subtree at `t`. This is
/// part of the trusted store contract (the store presents a tree, not a
/// general graph): a snapshot that repeats an identity inside one
/// hierarchy falls outside it.
pub open spec fn tree_ids_distinct(t: Tree) -> bool
    decreases t,
{
    &&& !in_forest(t.kids, 0, t.id)
    &&& forest_ids_distinct(t.kids, 0)
}

/// The subtrees `ts[i..]` have pairwise disjoint identity sets, each
/// internally distinct.
pub open spec fn forest_ids_distinct(ts: Seq<Tree>, i: int) -> bool
    decreases ts, ts.len() - i,
{
    if 0 <= i < ts.len() {
        &&& tree_ids_distinct(ts[i])
        &&& (forall|id: EntityId| in_tree(ts[i], id) ==> !in_forest(ts, i + 1, id))
        &&& forest_ids_distinct(ts, i + 1)
    } else {
        true
    }
}

/// Pre-order uniqueness: when the hierarchy's identities are distinct, no
/// two traversal records visit the same node — together with
/// `lemma_preorder_complete`, every reachable node appears exactly once.
pub proof fn lemma_visited_once(t: Tree, prefix: Seq<char>, last: bool)
    requires
        tree_ids_distinct(t),
    ensures
        forall|j1: int, j2: int|
            0 <= j1 < j2 < records_of(t, prefix, last).len() ==> (#[trigger] records_of(
                t,
                prefix,
                last,
            )[j1]).id != (#[trigger] records_of(t, prefix, last)[j2]).id,
    decreases t,
{
    let rec = record_of(t, prefix, last);
    let cp = child_prefix(prefix, last);
    let frs = forest_records(t.kids, cp, 0);
    let rs = records_of(t, prefix, last);
    assert(rs == seq![rec] + frs);
    lemma_forest_complete(t.kids, cp, 0);
    lemma_forest_visited_once(t.kids, cp, 0);
    assert forall|j1: int, j2: int| 0 <= j1 < j2 < rs.len() implies rs[j1].id != rs[j2].id by {
        assert(rs[j2] == frs[j2 - 1]);
        if j1 == 0 {
            assert(rec_contains(frs, frs[j2 - 1].id));
            assert(in_forest(t.kids, 0, frs[j2 - 1].id));
        } else {
            assert(rs[j1] == frs[j1 - 1]);
        }
    }
}

/// Pre-order uniqueness over the sibling subtrees `ts[i..]`.
pub proof fn lemma_forest_visited_once(ts: Seq<Tree>, prefix: Seq<char>, i: int)
    requires
        forest_ids_distinct(ts, i),
    ensures
        forall|j1: int, j2: int|
            0 <= j1 < j2 < forest_records(ts, prefix, i).len() ==> (#[trigger] forest_records(
                ts,
                prefix,
                i,
            )[j1]).id != (#[trigger] forest_records(ts, prefix, i)[j2]).id,
    decreases ts, ts.len() - i,
{
    if 0 <= i < ts.len() {
        let last = i == ts.len() - 1;
        let a = records_of(ts[i], prefix, last);
        let b = forest_records(ts, prefix, i + 1);
        let fr = forest_records(ts, prefix, i);
        assert(fr == a + b);
        lemma_preorder_complete(ts[i], prefix, last);
        lemma_forest_complete(ts, prefix, i + 1);
        lemma_visited_once(ts[i], prefix, last);
        lemma_forest_visited_once(ts, prefix, i + 1);
        assert forall|j1: int, j2: int|
            0 <= j1 < j2 < fr.len() implies fr[j1].id != fr[j2].id by {
            if j2 < a.len() {
                assert(fr[j1] == a[j1]);
                assert(fr[j2] == a[j2]);
            } else if j1 >= a.len() {
                assert(fr[j1] == b[j1 - a.len()]);
                assert(fr[j2] == b[j2 - a.len()]);
            } else {
                assert(fr[j1] == a[j1]);
                assert(fr[j2] == b[j2 - a.len()]);
                assert(rec_contains(a, a[j1].id));
                assert(in_tree(ts[i], a[j1].id));
                assert(rec_contains(b, b[j2 - a.len()].id));
                assert(in_forest(ts, i + 1, b[j2 - a.len()].id));
            }
        }
    }
}

// ------------------------------------------------------------------
// Sibling order preservation.
// ------------------------------------------------------------------

/// Where the records of the sibling subtree `ts[i]` start, counted from
/// the records of `ts[0]`.
pub open spec fn forest_offset(ts: Seq<Tree>, i: int) -> nat
    decreases i,
{
    if i <= 0 {
        0
    } else {
        forest_offset(ts, i - 1) + tree_size(ts[i - 1])
    }
}

proof fn lemma_forest_position(ts: Seq<Tree>, prefix: Seq<char>, j: int, i: int)
    requires
        0 <= j <= i < ts.len(),
    ensures
        forest_offset(ts, j) <= forest_offset(ts, i),
        forest_offset(ts, i) - forest_offset(ts, j) < forest_records(ts, prefix, j).len(),
        forest_records(ts, prefix, j)[forest_offset(ts, i) - forest_offset(ts, j)].id == ts[i].id,
    decreases i - j,
{
    let a = records_of(ts[j], prefix, j == ts.len() - 1);
    let b = forest_records(ts, prefix, j + 1);
    assert(forest_records(ts, prefix, j) == a + b);
    lemma_preorder_complete(ts[j], prefix, j == ts.len() - 1);
    lemma_forest_complete(ts, prefix, j + 1);
    if j == i {
        assert(a.len() >= 1);
        assert((a + b)[0] == a[0]);
        assert(a[0].id == ts[i].id);
    } else {
        lemma_forest_position(ts, prefix, j + 1, i);
        assert(forest_offset(ts, j + 1) == forest_offset(ts, j) + tree_size(ts[j]));
        let idx = forest_offset(ts, i) - forest_offset(ts, j);
        assert(idx - a.len() == forest_offset(ts, i) - forest_offset(ts, j + 1));
        assert(0 <= idx - a.len() < b.len());
        assert((a + b)[idx] == b[idx - a.len()]);
    }
}

/// Sibling order preservation: in the records of a sibling forest, the
/// root of `ts[i]` appears at offset `forest_offset(ts, i)`, and those
/// offsets grow strictly with `i` — children appear in the output in
/// exactly the order the store enumerates them.
pub proof fn lemma_sibling_order(ts: Seq<Tree>, prefix: Seq<char>, i: int)
    requires
        0 <= i < ts.len(),
    ensures
        forest_offset(ts, i) < forest_records(ts, prefix, 0).len(),
        forest_records(ts, prefix, 0)[forest_offset(ts, i) as int].id == ts[i].id,
        i > 0 ==> forest_offset(ts, i - 1) < forest_offset(ts, i),
{
    lemma_forest_position(ts, prefix, 0, i);
}

proof fn lemma_forest_block(ts: Seq<Tree>, prefix: Seq<char>, j: int, i: int)
    requires
        0 <= j <= i < ts.len(),
    ensures
        forest_offset(ts, j) <= forest_offset(ts, i),
        forest_offset(ts, i) - forest_offset(ts, j) + tree_size(ts[i]) <= forest_records(
            ts,
            prefix,
            j,
        ).len(),
        forest_records(ts, prefix, j).subrange(
            forest_offset(ts, i) - forest_offset(ts, j),
            forest_offset(ts, i) - forest_offset(ts, j) + tree_size(ts[i]),
        ) == records_of(ts[i], prefix, i == ts.len() - 1),
    decreases i - j,
{
    let a = records_of(ts[j], prefix, j == ts.len() - 1);
    let b = forest_records(ts, prefix, j + 1);
    assert(forest_records(ts, prefix, j) == a + b);
    lemma_preorder_complete(ts[j], prefix, j == ts.len() - 1);
    lemma_forest_complete(ts, prefix, j + 1);
    if j == i {
        assert((a + b).subrange(0, a.len() as int) =~= a);
    } else {
        lemma_forest_block(ts, prefix, j + 1, i);
        let x = forest_offset(ts, i) - forest_offset(ts, j + 1);
        assert(forest_offset(ts, j + 1) == forest_offset(ts, j) + tree_size(ts[j]));
        assert((a + b).subrange(
            x + a.len(),
            x + tree_size(ts[i]) + a.len(),
        ) =~= b.subrange(x, x + tree_size(ts[i])));
    }
}

/// Contiguity: inside a sibling forest's records, each subtree's records
/// stand as one unbroken block at that subtree's offset. With
/// `lemma_preorder_complete`, the block opens with the subtree's root and
/// holds exactly its descendants: every node's record precedes all of its
/// descendants' records, at every depth.
pub proof fn lemma_sibling_block(ts: Seq<Tree>, prefix: Seq<char>, i: int)
    requires
        0 <= i < ts.len(),
    ensures
        forest_offset(ts, i) + tree_size(ts[i]) <= forest_records(ts, prefix, 0).len(),
        forest_records(ts, prefix, 0).subrange(
            forest_offset(ts, i) as int,
            forest_offset(ts, i) + tree_size(ts[i]) as int,
        ) == records_of(ts[i], prefix, i == ts.len() - 1),
{
    lemma_forest_block(ts, prefix, 0, i);
}

// ------------------------------------------------------------------
// Last-sibling correctness.
// ------------------------------------------------------------------

/// `p` starts with `q`.
pub open spec fn begins_with(p: Seq<char>, q: Seq<char>) -> bool {
    q.len() <= p.len() && p.subrange(0, q.len() as int) == q
}

proof fn lemma_begins_with_trans(a: Seq<char>, b: Seq<char>, c: Seq<char>)
    requires
        begins_with(a, b),
        begins_with(b, c),
    ensures
        begins_with(a, c),
{
    assert(a.subrange(0, c.len() as int) =~= b.subrange(0, c.len() as int));
}

/// Last-sibling correctness, the connector: on every non-root line the
/// printed prefix ends in the corner glyph exactly for a last sibling and
/// in the tee glyph otherwise, right after the stored prefix.
pub proof fn lemma_line_connector(r: Record, colorize: bool)
    requires
        r.prefix.len() > 0,
    ensures
        line_of(r, colorize).subrange(0, r.prefix.len() as int) == r.prefix,
        line_of(r, colorize)[r.prefix.len() as int] == connector(r.last),
        connector(r.last) == (if r.last {
            '└'
        } else {
            '├'
        }),
{
    let line = line_of(r, colorize);
    let pp = printed_prefix(r.prefix, r.last);
    assert(pp == r.prefix.push(connector(r.last)));
    assert(line.subrange(0, r.prefix.len() as int) =~= r.prefix);
    assert(line[r.prefix.len() as int] == pp[r.prefix.len() as int]);
}

/// A root line gets no connector: its printed prefix is empty.
pub proof fn lemma_root_no_connector(r: Record, colorize: bool)
    requires
        r.prefix.len() == 0,
    ensures
        line_of(r, colorize) == styled_label(r, colorize) + comps_text(r.comps) + seq!['\n'],
{
    assert(printed_prefix(r.prefix, r.last) =~= Seq::<char>::empty());
    assert(line_of(r, colorize) =~= styled_label(r, colorize) + comps_text(r.comps)
        + seq!['\n']);
}

/// Last-sibling correctness, the continuation glyphs: every record below
/// the root of `t` carries a prefix that continues the node's own prefix
/// with a blank exactly when the node was a last sibling, and with the
/// vertical bar otherwise — so each ancestor's "last" status shows
/// correctly at its depth on every descendant line.
pub proof fn lemma_descendant_prefixes(t: Tree, prefix: Seq<char>, last: bool)
    ensures
        records_of(t, prefix, last)[0].prefix == prefix,
        records_of(t, prefix, last)[0].last == last,
        forall|j: int|
            1 <= j < records_of(t, prefix, last).len() ==> begins_with(
                (#[trigger] records_of(t, prefix, last)[j]).prefix,
                child_prefix(prefix, last),
            ),
    decreases t,
{
    let rec = record_of(t, prefix, last);
    let cp = child_prefix(prefix, last);
    let frs = forest_records(t.kids, cp, 0);
    lemma_forest_prefixes(t.kids, cp, 0);
    assert forall|j: int|
        1 <= j < records_of(t, prefix, last).len() implies begins_with(
        (records_of(t, prefix, last)[j]).prefix,
        cp,
    ) by {
        assert(records_of(t, prefix, last)[j] == frs[j - 1]);
    }
}

/// Every record of a sibling forest carries a prefix that starts with the
/// forest's common prefix.
pub proof fn lemma_forest_prefixes(ts: Seq<Tree>, prefix: Seq<char>, i: int)
    ensures
        forall|j: int|
            0 <= j < forest_records(ts, prefix, i).len() ==> begins_with(
                (#[trigger] forest_records(ts, prefix, i)[j]).prefix,
                prefix,
            ),
    decreases ts, ts.len() - i,
{
    if 0 <= i < ts.len() {
        let last = i == ts.len() - 1;
        let a = records_of(ts[i], prefix, last);
        let b = forest_records(ts, prefix, i + 1);
        lemma_descendant_prefixes(ts[i], prefix, last);
        lemma_forest_prefixes(ts, prefix, i + 1);
        assert forall|j: int|
            0 <= j < forest_records(ts, prefix, i).len() implies begins_with(
            (forest_records(ts, prefix, i)[j]).prefix,
            prefix,
        ) by {
            if j < a.len() {
                assert(forest_records(ts, prefix, i)[j] == a[j]);
                if j == 0 {
                    assert(a[0].prefix =~= prefix);
                    assert(a[0].prefix.subrange(0, prefix.len() as int) =~= prefix);
                } else {
                    assert(begins_with(a[j].prefix, child_prefix(prefix, last)));
                    assert(child_prefix(prefix, last).subrange(0, prefix.len() as int)
                        =~= prefix);
                    lemma_begins_with_trans(a[j].prefix, child_prefix(prefix, last), prefix);
                }
            } else {
                assert(forest_records(ts, prefix, i)[j] == b[j - a.len()]);
            }
        }
    }
}

// ------------------------------------------------------------------
// One line per node.
// ------------------------------------------------------------------

/// How often `c` occurs in `s`.
pub open spec fn count_char(s: Seq<char>, c: char) -> nat
    decreases s.len(),
{
    if s.len() == 0 {
        0
    } else {
        (if s[0] == c {
            1nat
        } else {
            0nat
        }) + count_char(s.drop_first(), c)
    }
}

proof fn lemma_count_char_concat(a: Seq<char>, b: Seq<char>, c: char)
    ensures
        count_char(a + b, c) == count_char(a, c) + count_char(b, c),
    decreases a.len(),
{
    if a.len() == 0 {
        assert(a + b =~= b);
    } else {
        assert((a + b).drop_first() =~= a.drop_first() + b);
        lemma_count_char_concat(a.drop_first(), b, c);
    }
}

proof fn lemma_count_char_single(g: char, c: char)
    ensures
        count_char(seq![g], c) == (if g == c {
            1nat
        } else {
            0nat
        }),
{
    assert(seq![g].drop_first() =~= Seq::<char>::empty());
    assert(count_char(Seq::<char>::empty(), c) == 0);
}

proof fn lemma_count_char_no_occurrence(s: Seq<char>, c: char)
    requires
        forall|i: int| 0 <= i < s.len() ==> s[i] != c,
    ensures
        count_char(s, c) == 0,
    decreases s.len(),
{
    if s.len() > 0 {
        lemma_count_char_no_occurrence(s.drop_first(), c);
    }
}

proof fn lemma_dec_digits_newline_free(n: nat)
    ensures
        count_char(dec_digits(n), '\n') == 0,
    decreases n,
{
    if n < 10 {
        lemma_count_char_single(digit_char(n), '\n');
    } else {
        lemma_dec_digits_newline_free(n / 10);
        assert(dec_digits(n) =~= dec_digits(n / 10) + seq![digit_char(n % 10)]);
        lemma_count_char_concat(dec_digits(n / 10), seq![digit_char(n % 10)], '\n');
        lemma_count_char_single(digit_char(n % 10), '\n');
    }
}

proof fn lemma_id_text_newline_free(id: EntityId)
    ensures
        count_char(id_text(id), '\n') == 0,
{
    lemma_dec_digits_newline_free(id.index as nat);
    lemma_dec_digits_newline_free(id.generation as nat);
    lemma_count_char_concat(dec_digits(id.index as nat), seq!['v'], '\n');
    lemma_count_char_single('v', '\n');
    lemma_count_char_concat(
        dec_digits(id.index as nat) + seq!['v'],
        dec_digits(id.generation as nat),
        '\n',
    );
}

/// `s` is literal text for one line: it holds no line terminator.
pub open spec fn newline_free(s: Seq<char>) -> bool {
    count_char(s, '\n') == 0
}

/// The stored parts of a record hold no line terminator: its prefix is
/// made of glyphs, and the store's label and short names keep to one line.
pub open spec fn record_clean(r: Record) -> bool {
    &&& newline_free(r.prefix)
    &&& match r.label {
        Some(name) => newline_free(name),
        None => true,
    }
    &&& forall|j: int| 0 <= j < r.comps.len() ==> newline_free(#[trigger] r.comps[j])
}

proof fn lemma_count_empty(c: char)
    ensures
        count_char(Seq::<char>::empty(), c) == 0,
{
}

proof fn lemma_comps_tail_newline_free(comps: Seq<Seq<char>>, i: int)
    requires
        forall|j: int| 0 <= j < comps.len() ==> newline_free(#[trigger] comps[j]),
    ensures
        count_char(comps_tail(comps, i), '\n') == 0,
    decreases comps.len() - i,
{
    if 0 <= i < comps.len() {
        lemma_comps_tail_newline_free(comps, i + 1);
        lemma_count_char_concat(seq![',', ' '], comps[i], '\n');
        lemma_count_char_concat(seq![',', ' '] + comps[i], comps_tail(comps, i + 1), '\n');
        lemma_count_char_no_occurrence(seq![',', ' '], '\n');
    }
}

proof fn lemma_comps_text_newline_free(comps: Seq<Seq<char>>)
    requires
        forall|j: int| 0 <= j < comps.len() ==> newline_free(#[trigger] comps[j]),
    ensures
        count_char(comps_text(comps), '\n') == 0,
{
    if comps.len() > 0 {
        lemma_comps_tail_newline_free(comps, 1);
        lemma_count_char_no_occurrence(seq![':', ' ', '['], '\n');
        lemma_count_char_single(']', '\n');
        lemma_count_char_concat(seq![':', ' ', '['], comps[0], '\n');
        lemma_count_char_concat(seq![':', ' ', '['] + comps[0], comps_tail(comps, 1), '\n');
        lemma_count_char_concat(
            seq![':', ' ', '['] + comps[0] + comps_tail(comps, 1),
            seq![']'],
            '\n',
        );
    }
}

proof fn lemma_ansi_newline_free(c: (u8, u8, u8))
    ensures
        count_char(crate::color::ansi_color_prefix(c), '\n') == 0,
        count_char(crate::color::ansi_reset(), '\n') == 0,
{
    lemma_dec_digits_newline_free(c.0 as nat);
    lemma_dec_digits_newline_free(c.1 as nat);
    lemma_dec_digits_newline_free(c.2 as nat);
    let head = seq!['\u{1b}', '[', '3', '8', ';', '2', ';'];
    lemma_count_char_no_occurrence(head, '\n');
    lemma_count_char_single(';', '\n');
    lemma_count_char_single('m', '\n');
    lemma_count_char_concat(head, dec_digits(c.0 as nat), '\n');
    lemma_count_char_concat(head + dec_digits(c.0 as nat), seq![';'], '\n');
    lemma_count_char_concat(head + dec_digits(c.0 as nat) + seq![';'], dec_digits(c.1 as nat), '\n');
    lemma_count_char_concat(
        head + dec_digits(c.0 as nat) + seq![';'] + dec_digits(c.1 as nat),
        seq![';'],
        '\n',
    );
    lemma_count_char_concat(
        head + dec_digits(c.0 as nat) + seq![';'] + dec_digits(c.1 as nat) + seq![';'],
        dec_digits(c.2 as nat),
        '\n',
    );
    lemma_count_char_concat(
        head + dec_digits(c.0 as nat) + seq![';'] + dec_digits(c.1 as nat) + seq![';']
            + dec_digits(c.2 as nat),
        seq!['m'],
        '\n',
    );
    lemma_count_char_no_occurrence(crate::color::ansi_reset(), '\n');
}

proof fn lemma_label_text_newline_free(label: Option<Seq<char>>, id: EntityId)
    requires
        match label {
            Some(name) => newline_free(name),
            None => true,
        },
    ensures
        count_char(label_text(label, id), '\n') == 0,
{
    lemma_id_text_newline_free(id);
    match label {
        Some(name) => {
            lemma_count_char_single('"', '\n');
            lemma_count_char_no_occurrence(seq!['"', ' ', '('], '\n');
            lemma_count_char_single(')', '\n');
            lemma_count_char_concat(seq!['"'], name, '\n');
            lemma_count_char_concat(seq!['"'] + name, seq!['"', ' ', '('], '\n');
            lemma_count_char_concat(seq!['"'] + name + seq!['"', ' ', '('], id_text(id), '\n');
            lemma_count_char_concat(
                seq!['"'] + name + seq!['"', ' ', '('] + id_text(id),
                seq![')'],
                '\n',
            );
        },
        None => {},
    }
}

/// A clean record renders to exactly one line: its text holds exactly one
/// line terminator, the one the renderer appends at the end.
pub proof fn lemma_line_one_newline(r: Record, colorize: bool)
    requires
        record_clean(r),
    ensures
        count_char(line_of(r, colorize), '\n') == 1,
{
    let pp = printed_prefix(r.prefix, r.last);
    assert(count_char(pp, '\n') == 0) by {
        if r.prefix.len() > 0 {
            assert(pp =~= r.prefix + seq![connector(r.last)]);
            lemma_count_char_concat(r.prefix, seq![connector(r.last)], '\n');
            lemma_count_char_single(connector(r.last), '\n');
        }
    }
    let sl = styled_label(r, colorize);
    assert(count_char(sl, '\n') == 0) by {
        lemma_label_text_newline_free(r.label, r.id);
        if colorize {
            let c = spec_color_of(r.id);
            lemma_ansi_newline_free(c);
            lemma_count_char_concat(crate::color::ansi_color_prefix(c), label_text(r.label, r.id), '\n');
            lemma_count_char_concat(
                crate::color::ansi_color_prefix(c) + label_text(r.label, r.id),
                crate::color::ansi_reset(),
                '\n',
            );
        }
    }
    lemma_comps_text_newline_free(r.comps);
    lemma_count_char_single('\n', '\n');
    lemma_count_char_concat(pp, sl, '\n');
    lemma_count_char_concat(pp + sl, comps_text(r.comps), '\n');
    lemma_count_char_concat(pp + sl + comps_text(r.comps), seq!['\n'], '\n');
}

/// One line per record: when every record is clean, the rendered text
/// holds exactly one line terminator per traversal record — together with
/// `lemma_preorder_complete`, exactly one line per reachable node.
pub proof fn lemma_one_line_per_record(rs: Seq<Record>, colorize: bool)
    requires
        forall|j: int| 0 <= j < rs.len() ==> record_clean(#[trigger] rs[j]),
    ensures
        count_char(lines_of(rs, colorize), '\n') == rs.len(),
    decreases rs.len(),
{
    if rs.len() > 0 {
        lemma_line_one_newline(rs[0], colorize);
        lemma_one_line_per_record(rs.drop_first(), colorize);
        lemma_count_char_concat(line_of(rs[0], colorize), lines_of(rs.drop_first(), colorize), '\n');
    }
}

/// The store-supplied text in the subtree at `t` keeps to one line: every
/// label and every component short name is free of line terminators.
pub open spec fn tree_clean(t: Tree) -> bool
    decreases t,
{
    &&& match t.label {
        Some(name) => newline_free(name),
        None => true,
    }
    &&& (forall|j: int| 0 <= j < t.comps.len() ==> newline_free(#[trigger] t.comps[j]))
    &&& forest_clean(t.kids, 0)
}

/// Every subtree among `ts[i..]` is clean.
pub open spec fn forest_clean(ts: Seq<Tree>, i: int) -> bool
    decreases ts, ts.len() - i,
{
    if 0 <= i < ts.len() {
        tree_clean(ts[i]) && forest_clean(ts, i + 1)
    } else {
        true
    }
}

proof fn lemma_records_clean(t: Tree, prefix: Seq<char>, last: bool)
    requires
        tree_clean(t),
        newline_free(prefix),
    ensures
        forall|j: int|
            0 <= j < records_of(t, prefix, last).len() ==> record_clean(
                #[trigger] records_of(t, prefix, last)[j],
            ),
    decreases t,
{
    let rec = record_of(t, prefix, last);
    let cp = child_prefix(prefix, last);
    let frs = forest_records(t.kids, cp, 0);
    assert(newline_free(cp)) by {
        lemma_count_char_concat(prefix, seq![if last { ' ' } else { '│' }], '\n');
        lemma_count_char_single(if last { ' ' } else { '│' }, '\n');
        assert(cp =~= prefix + seq![if last { ' ' } else { '│' }]);
    }
    lemma_forest_records_clean(t.kids, cp, 0);
    assert forall|j: int|
        0 <= j < records_of(t, prefix, last).len() implies record_clean(
        records_of(t, prefix, last)[j],
    ) by {
        if j == 0 {
            assert(records_of(t, prefix, last)[0] == rec);
        } else {
            assert(records_of(t, prefix, last)[j] == frs[j - 1]);
        }
    }
}

proof fn lemma_forest_records_clean(ts: Seq<Tree>, prefix: Seq<char>, i: int)
    requires
        forest_clean(ts, i),
        newline_free(prefix),
    ensures
        forall|j: int|
            0 <= j < forest_records(ts, prefix, i).len() ==> record_clean(
                #[trigger] forest_records(ts, prefix, i)[j],
            ),
    decreases ts, ts.len() - i,
{
    if 0 <= i < ts.len() {
        let last = i == ts.len() - 1;
        let a = records_of(ts[i], prefix, last);
        let b = forest_records(ts, prefix, i + 1);
        lemma_records_clean(ts[i], prefix, last);
        lemma_forest_records_clean(ts, prefix, i + 1);
        assert forall|j: int|
            0 <= j < forest_records(ts, prefix, i).len() implies record_clean(
            forest_records(ts, prefix, i)[j],
        ) by {
            if j < a.len() {
                assert(forest_records(ts, prefix, i)[j] == a[j]);
            } else {
                assert(forest_records(ts, prefix, i)[j] == b[j - a.len()]);
            }
        }
    }
}

/// One line per node, at the level of the finished text: for a clean
/// hierarchy, the full rendering holds exactly one line terminator per
/// reachable node.
pub proof fn lemma_one_line_per_node(t: Tree, colorize: bool)
    requires
        tree_clean(t),
    ensures
        count_char(
            lines_of(records_of(t, Seq::<char>::empty(), true), colorize),
            '\n',
        ) == tree_size(t),
{
    lemma_records_clean(t, Seq::<char>::empty(), true);
    lemma_one_line_per_record(records_of(t, Seq::<char>::empty(), true), colorize);
    lemma_preorder_complete(t, Seq::<char>::empty(), true);
}

// ------------------------------------------------------------------
// Color stability.
// ------------------------------------------------------------------

/// Color stability: the color of a node depends only on the index part of
/// its identity, so any two identities sharing an index — a slot and its
/// later generations — always get the same color.
pub proof fn lemma_color_stable(a: EntityId, b: EntityId)
    requires
        a.index == b.index,
    ensures
        spec_color_of(a) == spec_color_of(b),
{
}

// ------------------------------------------------------------------
// Component-list formatting.
// ------------------------------------------------------------------

/// Component-list formatting: no components print no suffix at all; one
/// component prints `: [X]`; three print `: [X, Y, Z]`, the short names
/// kept in enumeration order.
pub proof fn lemma_component_list_formatting(cs: Seq<Seq<char>>)
    ensures
        cs.len() == 0 ==> comps_text(cs) == Seq::<char>::empty(),
        cs.len() == 1 ==> comps_text(cs) == seq![':', ' ', '['] + cs[0] + seq![']'],
        cs.len() == 3 ==> comps_text(cs) == seq![':', ' ', '['] + cs[0] + seq![',', ' ']
            + cs[1] + seq![',', ' '] + cs[2] + seq![']'],
{
    if cs.len() == 1 {
        assert(comps_tail(cs, 1) =~= Seq::<char>::empty());
        assert(comps_text(cs) =~= seq![':', ' ', '['] + cs[0] + seq![']']);
    }
    if cs.len() == 3 {
        assert(comps_tail(cs, 3) =~= Seq::<char>::empty());
        assert(comps_tail(cs, 2) == seq![',', ' '] + cs[2] + comps_tail(cs, 3));
        assert(comps_tail(cs, 1) == seq![',', ' '] + cs[1] + comps_tail(cs, 2));
        assert(comps_text(cs) =~= seq![':', ' ', '['] + cs[0] + seq![',', ' '] + cs[1]
            + seq![',', ' '] + cs[2] + seq![']']);
    }
}

} // verus!
