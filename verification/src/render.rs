//! The traversal engine and the line renderer.
//!
//! The traversal walks the tree depth-first in pre-order with an explicit
//! stack, producing one record per node: the node, the prefix built so far
//! and whether the node is the last child of its parent. The line renderer
//! turns each record into one line: connector glyph, optionally colorized
//! label, and the bracketed comma-joined component list.

use crate::color::ansi_color_prefix;
use crate::color::ansi_reset;
use crate::color::ansi_rgb_prefix;
use crate::color::ansi_rgb_suffix;
use crate::color::color_from_entity;
use crate::color::spec_color_of;
use crate::store::short_names;
use crate::store::label_view;
use crate::store::lookup;
use crate::store::ComponentInfo;
use crate::store::EntityId;
use crate::store::Node;
use crate::store::NodeView;
use crate::store::Store;
use crate::text::dec_digits;
use crate::text::push_decimal;
use vstd::prelude::*;
use vstd::string::StringExecFns;

verus! {

// ------------------------------------------------------------------
// The abstract shape of a hierarchy.
// ------------------------------------------------------------------

/// The tree a well-formed snapshot presents below one root: each node with
/// its identity, label, component short names and subtrees, children in
/// store enumeration order.
pub struct Tree {
    pub id: EntityId,
    pub label: Option<Seq<char>>,
    pub comps: Seq<Seq<char>>,
    pub kids: Seq<Tree>,
}

/// `t` is the tree the snapshot `s` spells out below `id`: the node is
/// present, its fields match, a childless node has no subtrees, and a
/// present children list is non-empty and matched subtree by subtree.
pub open spec fn represents(s: Seq<NodeView>, id: EntityId, t: Tree) -> bool
    decreases t,
{
    match lookup(s, id) {
        None => false,
        Some(n) => {
            &&& t.id == id
            &&& t.label == n.label
            &&& t.comps == short_names(n.components)
            &&& match n.children {
                None => t.kids.len() == 0,
                Some(cs) => {
                    &&& cs.len() > 0
                    &&& t.kids.len() == cs.len()
                    &&& represents_kids(s, cs, t.kids, 0)
                },
            }
        },
    }
}

/// The subtrees `ks[i..]` represent the child identities `cs[i..]`.
pub open spec fn represents_kids(s: Seq<NodeView>, cs: Seq<EntityId>, ks: Seq<Tree>, i: int) -> bool
    decreases ks, ks.len() - i,
{
    if 0 <= i < ks.len() && ks.len() == cs.len() {
        represents(s, cs[i], ks[i]) && represents_kids(s, cs, ks, i + 1)
    } else {
        true
    }
}

/// A snapshot is well formed below `root` when its children relation spells
/// out one finite tree there. This is the trusted store contract: finite,
/// acyclic, every reachable node present, no present-but-empty children
/// list. A snapshot that violates it has no representing tree.
pub open spec fn store_wf(s: Seq<NodeView>, root: EntityId) -> bool {
    exists|t: Tree| represents(s, root, t)
}

/// The tree a well-formed snapshot presents below `root`.
pub open spec fn hierarchy_tree(s: Seq<NodeView>, root: EntityId) -> Tree {
    choose|t: Tree| represents(s, root, t)
}

/// A snapshot presents at most one tree below a root: `represents` is
/// functional, so `hierarchy_tree` and `spec_render` name the one tree and
/// the one rendering a well-formed snapshot determines.
pub proof fn lemma_represents_unique(s: Seq<NodeView>, id: EntityId, t1: Tree, t2: Tree)
    requires
        represents(s, id, t1),
        represents(s, id, t2),
    ensures
        t1 == t2,
    decreases t1,
{
    if t1.kids.len() > 0 || t2.kids.len() > 0 {
        let cs = lookup(s, id)->Some_0.children->Some_0;
        lemma_represents_kids_unique(s, cs, t1.kids, t2.kids, 0);
        assert(t1.kids =~= t2.kids);
    } else {
        assert(t1.kids =~= t2.kids);
    }
}

proof fn lemma_represents_kids_unique(
    s: Seq<NodeView>,
    cs: Seq<EntityId>,
    ks1: Seq<Tree>,
    ks2: Seq<Tree>,
    i: int,
)
    requires
        represents_kids(s, cs, ks1, i),
        represents_kids(s, cs, ks2, i),
        ks1.len() == cs.len(),
        ks2.len() == cs.len(),
        0 <= i,
    ensures
        forall|j: int| i <= j < cs.len() ==> ks1[j] == ks2[j],
    decreases ks1, cs.len() - i,
{
    if i < cs.len() {
        lemma_represents_unique(s, cs[i], ks1[i], ks2[i]);
        lemma_represents_kids_unique(s, cs, ks1, ks2, i + 1);
    }
}

proof fn lemma_represents_kids_index(
    s: Seq<NodeView>,
    cs: Seq<EntityId>,
    ks: Seq<Tree>,
    i: int,
    j: int,
)
    requires
        represents_kids(s, cs, ks, i),
        ks.len() == cs.len(),
        0 <= i <= j < ks.len(),
    ensures
        represents(s, cs[j], ks[j]),
    decreases j - i,
{
    if i < j {
        lemma_represents_kids_index(s, cs, ks, i + 1, j);
    }
}

/// The number of nodes in the subtree at `t`.
pub open spec fn tree_size(t: Tree) -> nat
    decreases t,
{
    1 + forest_size(t.kids, 0)
}

/// The number of nodes in the sibling subtrees `ts[i..]`.
pub open spec fn forest_size(ts: Seq<Tree>, i: int) -> nat
    decreases ts, ts.len() - i,
{
    if 0 <= i < ts.len() {
        tree_size(ts[i]) + forest_size(ts, i + 1)
    } else {
        0
    }
}

/// The number of nodes still owed by the pending-work stack.
pub open spec fn pending_size(p: Seq<(Tree, Seq<char>, bool)>) -> nat
    decreases p.len(),
{
    if p.len() == 0 {
        0
    } else {
        tree_size(p.last().0) + pending_size(p.drop_last())
    }
}

// ------------------------------------------------------------------
// Traversal records.
// ------------------------------------------------------------------

/// One traversal record: everything the line renderer needs for one node.
pub struct Record {
    pub id: EntityId,
    pub label: Option<Seq<char>>,
    pub comps: Seq<Seq<char>>,
    pub prefix: Seq<char>,
    pub last: bool,
}

/// The record the traversal emits for the root of `t`.
pub open spec fn record_of(t: Tree, prefix: Seq<char>, last: bool) -> Record {
    Record { id: t.id, label: t.label, comps: t.comps, prefix, last }
}

/// The record for a node as the snapshot stores it.
pub open spec fn node_record(n: NodeView, prefix: Seq<char>, last: bool) -> Record {
    Record { id: n.id, label: n.label, comps: short_names(n.components), prefix, last }
}

/// The continuation glyph added under a node: blank below a last child (no
/// further vertical line is needed), a vertical bar below a non-last child.
pub open spec fn child_prefix(prefix: Seq<char>, last: bool) -> Seq<char> {
    prefix.push(if last { ' ' } else { '│' })
}

/// The pre-order traversal records of the subtree at `t`: the node itself,
/// then its children's subtrees left to right.
pub open spec fn records_of(t: Tree, prefix: Seq<char>, last: bool) -> Seq<Record>
    decreases t,
{
    seq![record_of(t, prefix, last)] + forest_records(t.kids, child_prefix(prefix, last), 0)
}

/// The records of the sibling subtrees `ts[i..]`, the final one marked last.
pub open spec fn forest_records(ts: Seq<Tree>, prefix: Seq<char>, i: int) -> Seq<Record>
    decreases ts, ts.len() - i,
{
    if 0 <= i < ts.len() {
        records_of(ts[i], prefix, i == ts.len() - 1) + forest_records(ts, prefix, i + 1)
    } else {
        Seq::<Record>::empty()
    }
}

// ------------------------------------------------------------------
// The line renderer, as a specification.
// ------------------------------------------------------------------

/// The connector glyph that ends a non-root prefix.
pub open spec fn connector(last: bool) -> char {
    if last {
        '└'
    } else {
        '├'
    }
}

/// The prefix as printed: the stored prefix with the connector appended,
/// except on the root line, whose prefix is empty and gets no connector.
pub open spec fn printed_prefix(prefix: Seq<char>, last: bool) -> Seq<char> {
    if prefix.len() == 0 {
        prefix
    } else {
        prefix.push(connector(last))
    }
}

/// `<index>v<generation>`: the visible form of an identity.
pub open spec fn id_text(id: EntityId) -> Seq<char> {
    dec_digits(id.index as nat) + seq!['v'] + dec_digits(id.generation as nat)
}

/// The label part of a line: the display label quoted with the identity in
/// parentheses, or the bare identity when no label is attached.
pub open spec fn label_text(label: Option<Seq<char>>, id: EntityId) -> Seq<char> {
    match label {
        Some(name) => seq!['"'] + name + seq!['"', ' ', '('] + id_text(id) + seq![')'],
        None => id_text(id),
    }
}

/// The label part wrapped in the node's color when colorizing is on. The
/// component list is never colorized.
pub open spec fn styled_label(r: Record, colorize: bool) -> Seq<char> {
    if colorize {
        ansi_color_prefix(spec_color_of(r.id)) + label_text(r.label, r.id) + ansi_reset()
    } else {
        label_text(r.label, r.id)
    }
}

/// The comma-joined tail of the component list, from position `i` on.
pub open spec fn comps_tail(comps: Seq<Seq<char>>, i: int) -> Seq<char>
    decreases comps.len() - i,
{
    if 0 <= i < comps.len() {
        seq![',', ' '] + comps[i] + comps_tail(comps, i + 1)
    } else {
        Seq::<char>::empty()
    }
}

/// The bracketed component-list suffix: nothing for a node with no
/// components, otherwise the short names comma-joined in enumeration order
/// (duplicates, if the store yields any, are printed verbatim).
pub open spec fn comps_text(comps: Seq<Seq<char>>) -> Seq<char> {
    if comps.len() == 0 {
        Seq::<char>::empty()
    } else {
        seq![':', ' ', '['] + comps[0] + comps_tail(comps, 1) + seq![']']
    }
}

/// One rendered line.
pub open spec fn line_of(r: Record, colorize: bool) -> Seq<char> {
    printed_prefix(r.prefix, r.last) + styled_label(r, colorize) + comps_text(r.comps)
        + seq!['\n']
}

/// The rendered text of a record sequence: one line per record.
pub open spec fn lines_of(rs: Seq<Record>, colorize: bool) -> Seq<char>
    decreases rs.len(),
{
    if rs.len() == 0 {
        Seq::<char>::empty()
    } else {
        line_of(rs[0], colorize) + lines_of(rs.drop_first(), colorize)
    }
}

/// Rendering one line per record distributes over concatenation.
pub proof fn lemma_lines_of_concat(a: Seq<Record>, b: Seq<Record>, colorize: bool)
    ensures
        lines_of(a + b, colorize) == lines_of(a, colorize) + lines_of(b, colorize),
    decreases a.len(),
{
    if a.len() == 0 {
        assert(a + b =~= b);
        assert(lines_of(a, colorize) + lines_of(b, colorize) =~= lines_of(b, colorize));
    } else {
        assert((a + b).drop_first() =~= a.drop_first() + b);
        assert((a + b)[0] == a[0]);
        lemma_lines_of_concat(a.drop_first(), b, colorize);
        assert(line_of(a[0], colorize) + (lines_of(a.drop_first(), colorize) + lines_of(
            b,
            colorize,
        )) =~= (line_of(a[0], colorize) + lines_of(a.drop_first(), colorize)) + lines_of(
            b,
            colorize,
        ));
    }
}

/// The full rendering of the hierarchy below `root`: the pre-order records
/// of its tree, starting from an empty prefix, one line each.
pub open spec fn spec_render(s: Seq<NodeView>, root: EntityId, colorize: bool) -> Seq<char> {
    lines_of(records_of(hierarchy_tree(s, root), Seq::<char>::empty(), true), colorize)
}

// ------------------------------------------------------------------
// The line renderer, executable.
// ------------------------------------------------------------------

/// Appends the visible form of an identity.
fn push_id(out: &mut String, id: EntityId)
    ensures
        final(out)@ == old(out)@ + id_text(id),
{
    push_decimal(out, id.index);
    out.append("v");
    push_decimal(out, id.generation);
    proof {
        reveal_strlit("v");
        assert("v"@ =~= seq!['v']);
        assert(out@ =~= old(out)@ + id_text(id));
    }
}

/// Appends the label part of a line.
fn push_label(out: &mut String, label: &Option<String>, id: EntityId)
    ensures
        final(out)@ == old(out)@ + label_text(label_view(*label), id),
{
    match label {
        Some(name) => {
            out.append("\"");
            out.append(name.as_str());
            out.append("\" (");
            push_id(out, id);
            out.append(")");
            proof {
                reveal_strlit("\"");
                reveal_strlit("\" (");
                reveal_strlit(")");
                assert("\""@ =~= seq!['"']);
                assert("\" ("@ =~= seq!['"', ' ', '(']);
                assert(")"@ =~= seq![')']);
                assert(out@ =~= old(out)@ + label_text(label_view(*label), id));
            }
        },
        None => {
            push_id(out, id);
        },
    }
}

/// The short names of a vector of component descriptors.
pub open spec fn comp_shorts(comps: Seq<ComponentInfo>) -> Seq<Seq<char>> {
    comps.map_values(|c: ComponentInfo| c@.short_name)
}

/// Appends the bracketed component-list suffix.
fn push_components(out: &mut String, comps: &Vec<ComponentInfo>)
    ensures
        final(out)@ == old(out)@ + comps_text(comp_shorts(comps@)),
{
    let ghost shorts = comp_shorts(comps@);
    if comps.len() > 0 {
        out.append(": [");
        out.append(comps[0].short_name.as_str());
        proof {
            reveal_strlit(": [");
            assert(": ["@ =~= seq![':', ' ', '[']);
            assert(shorts[0] == comps@[0]@.short_name);
            assert(out@ + comps_tail(shorts, 1) + seq![']'] =~= old(out)@ + comps_text(shorts));
        }
        let mut i: usize = 1;
        while i < comps.len()
            invariant
                1 <= i <= comps@.len(),
                shorts == comp_shorts(comps@),
                out@ + comps_tail(shorts, i as int) + seq![']'] == old(out)@ + comps_text(shorts),
            decreases comps@.len() - i,
        {
            let ghost before = out@;
            out.append(", ");
            out.append(comps[i].short_name.as_str());
            proof {
                reveal_strlit(", ");
                assert(", "@ =~= seq![',', ' ']);
                assert(shorts[i as int] == comps@[i as int]@.short_name);
                assert(comps_tail(shorts, i as int) == seq![',', ' '] + shorts[i as int]
                    + comps_tail(shorts, i as int + 1));
                assert(out@ + comps_tail(shorts, i as int + 1) =~= before + comps_tail(
                    shorts,
                    i as int,
                ));
                assert(out@ + comps_tail(shorts, i as int + 1) + seq![']'] =~= before + comps_tail(
                    shorts,
                    i as int,
                ) + seq![']']);
            }
            i += 1;
        }
        out.append("]");
        proof {
            reveal_strlit("]");
            assert("]"@ =~= seq![']']);
            assert(comps_tail(shorts, i as int) =~= Seq::<char>::empty());
            assert(out@ =~= old(out)@ + comps_text(shorts));
        }
    } else {
        proof {
            assert(out@ =~= old(out)@ + comps_text(shorts));
        }
    }
}

/// Emits one line for one traversal record: prefix and connector, the
/// optionally colorized label, the component list, and the line terminator.
fn push_line(out: &mut String, prefix: &String, last: bool, node: &Node, colorize: bool)
    ensures
        final(out)@ == old(out)@ + line_of(node_record(node@, prefix@, last), colorize),
{
    let ghost r = node_record(node@, prefix@, last);
    if !prefix.as_str().is_empty() {
        out.append(prefix.as_str());
        if last {
            out.append("└");
        } else {
            out.append("├");
        }
        proof {
            reveal_strlit("└");
            reveal_strlit("├");
            assert("└"@ =~= seq!['└']);
            assert("├"@ =~= seq!['├']);
            assert(out@ =~= old(out)@ + printed_prefix(r.prefix, r.last));
        }
    }
    let ghost with_prefix = out@;
    proof {
        assert(with_prefix == old(out)@ + printed_prefix(r.prefix, r.last));
    }
    if colorize {
        let c = color_from_entity(node.id);
        let start = ansi_rgb_prefix(c);
        out.append(start.as_str());
        push_label(out, &node.label, node.id);
        let end = ansi_rgb_suffix(c);
        out.append(end.as_str());
        proof {
            assert(out@ =~= with_prefix + styled_label(r, colorize));
        }
    } else {
        push_label(out, &node.label, node.id);
        proof {
            assert(out@ =~= with_prefix + styled_label(r, colorize));
        }
    }
    let ghost with_label = out@;
    push_components(out, &node.components);
    proof {
        assert(short_names(node@.components) =~= comp_shorts(node.components@));
        assert(out@ == with_label + comps_text(r.comps));
    }
    out.append("\n");
    proof {
        reveal_strlit("\n");
        assert("\n"@ =~= seq!['\n']);
        assert(out@ =~= old(out)@ + line_of(r, colorize));
    }
}

// ------------------------------------------------------------------
// The traversal engine.
// ------------------------------------------------------------------

/// The text still owed by the pending-work stack, topmost entry first.
pub open spec fn pending_lines(p: Seq<(Tree, Seq<char>, bool)>, colorize: bool) -> Seq<char>
    decreases p.len(),
{
    if p.len() == 0 {
        Seq::<char>::empty()
    } else {
        lines_of(records_of(p.last().0, p.last().1, p.last().2), colorize) + pending_lines(
            p.drop_last(),
            colorize,
        )
    }
}

/// Render configuration, read once per rendering call.
pub struct Options {
    pub color: bool,
}

impl Default for Options {
    /// Colorizing is on when the caller does not say otherwise.
    fn default() -> (o: Options)
        ensures
            o.color,
    {
        Options { color: true }
    }
}

/// Displays an entity hierarchy with component names.
#[must_use]
pub struct DebugEntityHierarchy<'w> {
    entity: EntityId,
    world: &'w Store,
}

/// Builds a rendering request for the hierarchy rooted at `entity`.
pub fn debug_entity_hierarchy<'w>(entity: EntityId, world: &'w Store) -> (d: DebugEntityHierarchy<
    'w,
>)
    ensures
        d.spec_entity() == entity,
        d.spec_store() == world@,
{
    DebugEntityHierarchy { entity, world }
}

pub trait WorldExt {
    /// The snapshot a rendering request built on this store will read.
    spec fn spec_nodes(&self) -> Seq<NodeView>;

    /// Builds a rendering request for the hierarchy rooted at `entity`,
    /// reading this store: the same request `debug_entity_hierarchy`
    /// builds on the same arguments.
    fn inspect_entity_hierarchy<'w>(&'w self, entity: EntityId) -> (d: DebugEntityHierarchy<'w>)
        ensures
            d.spec_entity() == entity,
            d.spec_store() == self.spec_nodes(),
    ;
}

impl WorldExt for Store {
    open spec fn spec_nodes(&self) -> Seq<NodeView> {
        self@
    }

    fn inspect_entity_hierarchy<'w>(&'w self, entity: EntityId) -> (d: DebugEntityHierarchy<'w>) {
        debug_entity_hierarchy(entity, self)
    }
}

impl<'w> DebugEntityHierarchy<'w> {
    /// The root the rendering starts from.
    pub closed spec fn spec_entity(&self) -> EntityId {
        self.entity
    }

    /// The snapshot the rendering reads.
    pub closed spec fn spec_store(&self) -> Seq<NodeView> {
        self.world@
    }

    /// Renders the hierarchy below the root as one text block: one line per
    /// node, every reachable node exactly once, in pre-order, children in
    /// store enumeration order. The traversal keeps an explicit stack of
    /// pending siblings; nothing else is materialized.
    #[verifier::rlimit(90)]
    pub fn render(&self, options: &Options) -> (out: String)
        requires
            store_wf(self.spec_store(), self.spec_entity()),
        ensures
            out@ == spec_render(self.spec_store(), self.spec_entity(), options.color),
    {
        let colorize = options.color;
        let ghost s = self.spec_store();
        let ghost root = self.spec_entity();
        let ghost t0 = hierarchy_tree(s, root);
        proof {
            assert(represents(s, root, t0));
        }
        let mut out = String::new();
        let mut stack: Vec<(EntityId, String, bool)> = Vec::new();
        stack.push((self.entity, String::new(), true));
        let ghost mut pending: Seq<(Tree, Seq<char>, bool)> = seq![
            (t0, Seq::<char>::empty(), true),
        ];
        proof {
            assert(pending.drop_last() =~= Seq::<(Tree, Seq<char>, bool)>::empty());
            assert(pending.last() == (t0, Seq::<char>::empty(), true));
            assert(pending_lines(Seq::<(Tree, Seq<char>, bool)>::empty(), colorize) == Seq::<
                char,
            >::empty());
            assert(pending_lines(pending, colorize) == lines_of(
                records_of(t0, Seq::<char>::empty(), true),
                colorize,
            ) + Seq::<char>::empty());
            assert(out@ + pending_lines(pending, colorize) =~= spec_render(s, root, colorize));
        }
        while stack.len() != 0
            invariant
                s == self.spec_store(),
                pending.len() == stack@.len(),
                forall|i: int|
                    0 <= i < pending.len() ==> {
                        &&& represents(s, (#[trigger] stack@[i]).0, pending[i].0)
                        &&& stack@[i].1@ == pending[i].1
                        &&& stack@[i].2 == pending[i].2
                    },
                out@ + pending_lines(pending, colorize) == spec_render(s, root, colorize),
            decreases pending_size(pending),
        {
            let ghost old_stack = stack@;
            let ghost q_init = pending;
            let top = stack.pop().unwrap();
            let id = top.0;
            let prefix = top.1;
            let last = top.2;
            let ghost entry = pending.last();
            let ghost t = entry.0;
            proof {
                assert(top == old_stack[old_stack.len() - 1]);
                assert(represents(s, (old_stack[q_init.len() - 1]).0, pending[q_init.len() - 1].0));
                assert(represents(s, id, t));
                assert(prefix@ == entry.1);
                assert(last == entry.2);
                pending = pending.drop_last();
                assert(lookup(s, id) is Some);
                crate::store::lemma_lookup_id(s, id);
            }
            let node = self.world.get_node(id);
            let ghost n = node@;
            let ghost rec = record_of(t, entry.1, last);
            proof {
                assert(rec == node_record(n, entry.1, last));
            }
            let ghost out_before = out@;
            push_line(&mut out, &prefix, last, node, colorize);
            let ghost cp = child_prefix(entry.1, last);
            let ghost owed = pending_lines(pending, colorize);
            proof {
                lemma_lines_of_concat(seq![rec], forest_records(t.kids, cp, 0), colorize);
                assert(seq![rec].drop_first() =~= Seq::<Record>::empty());
                assert(lines_of(Seq::<Record>::empty(), colorize) == Seq::<char>::empty());
                assert(seq![rec][0] == rec);
                assert(lines_of(seq![rec], colorize) == line_of(rec, colorize) + lines_of(
                    Seq::<Record>::empty(),
                    colorize,
                ));
                assert(lines_of(seq![rec], colorize) =~= line_of(rec, colorize));
                // what was owed at the top of this iteration:
                assert(q_init.len() > 0);
                assert(q_init.last() == entry);
                assert(q_init.drop_last() == pending);
                assert(pending_lines(q_init, colorize) == lines_of(
                    records_of(t, entry.1, last),
                    colorize,
                ) + owed);
                assert(records_of(t, entry.1, last) == seq![rec] + forest_records(t.kids, cp, 0));
                assert(out_before + pending_lines(q_init, colorize) == spec_render(
                    s,
                    root,
                    colorize,
                ));
                assert(out_before + (line_of(rec, colorize) + (lines_of(
                    forest_records(t.kids, cp, 0),
                    colorize,
                ) + owed)) =~= spec_render(s, root, colorize));
                assert(out@ + (lines_of(forest_records(t.kids, cp, 0), colorize) + owed)
                    =~= spec_render(s, root, colorize));
            }
            match &node.children {
                None => {
                    proof {
                        assert(t.kids.len() == 0);
                        assert(forest_records(t.kids, cp, 0) =~= Seq::<Record>::empty());
                        assert(lines_of(Seq::<Record>::empty(), colorize) =~= Seq::<
                            char,
                        >::empty());
                        assert(out@ + pending_lines(pending, colorize) =~= spec_render(
                            s,
                            root,
                            colorize,
                        ));
                        assert(pending_size(q_init) == tree_size(t) + pending_size(pending));
                        assert(pending_size(pending) < pending_size(q_init));
                    }
                },
                Some(children) => {
                    let ghost cs = children@;
                    let ghost ks = t.kids;
                    proof {
                        assert(cs.len() > 0);
                        assert(ks.len() == cs.len());
                    }
                    let k = children.len();
                    let mut new_prefix = prefix;
                    if last {
                        new_prefix.append(" ");
                    } else {
                        new_prefix.append("│");
                    }
                    proof {
                        reveal_strlit(" ");
                        reveal_strlit("│");
                        assert(" "@ =~= seq![' ']);
                        assert("│"@ =~= seq!['│']);
                        assert(new_prefix@ =~= cp);
                    }
                    let ghost q0 = pending;
                    stack.push((children[k - 1], new_prefix.clone(), true));
                    proof {
                        lemma_represents_kids_index(s, cs, ks, 0, (k - 1) as int);
                        pending = pending.push((ks[k - 1], cp, true));
                        assert(pending.last() == (ks[k - 1], cp, true));
                        assert(pending.drop_last() =~= q0);
                        assert(forest_records(ks, cp, k as int) =~= Seq::<Record>::empty());
                        lemma_lines_of_concat(
                            records_of(ks[k - 1], cp, true),
                            forest_records(ks, cp, k as int),
                            colorize,
                        );
                        assert(lines_of(forest_records(ks, cp, (k - 1) as int), colorize)
                            =~= lines_of(records_of(ks[k - 1], cp, true), colorize));
                        assert(pending_lines(pending, colorize) =~= lines_of(
                            forest_records(ks, cp, (k - 1) as int),
                            colorize,
                        ) + pending_lines(q0, colorize));
                        assert(forest_size(ks, k as int) == 0);
                        assert(pending_size(pending) == forest_size(ks, (k - 1) as int)
                            + pending_size(q0));
                    }
                    let mut j: usize = k - 1;
                    while j > 0
                        invariant
                            s == self.spec_store(),
                            k == cs.len(),
                            k == ks.len(),
                            0 < k,
                            j < k,
                            cs == children@,
                            represents_kids(s, cs, ks, 0),
                            pending.len() == stack@.len(),
                            forall|i: int|
                                0 <= i < pending.len() ==> {
                                    &&& represents(s, (#[trigger] stack@[i]).0, pending[i].0)
                                    &&& stack@[i].1@ == pending[i].1
                                    &&& stack@[i].2 == pending[i].2
                                },
                            new_prefix@ == cp,
                            pending_lines(pending, colorize) == lines_of(
                                forest_records(ks, cp, j as int),
                                colorize,
                            ) + pending_lines(q0, colorize),
                            pending_size(pending) == forest_size(ks, j as int) + pending_size(q0),
                        decreases j,
                    {
                        stack.push((children[j - 1], new_prefix.clone(), false));
                        proof {
                            lemma_represents_kids_index(s, cs, ks, 0, (j - 1) as int);
                            let q1 = pending;
                            pending = pending.push((ks[j - 1], cp, false));
                            assert(pending.last() == (ks[j - 1], cp, false));
                            assert(pending.drop_last() =~= q1);
                            assert((j - 1) as int != ks.len() - 1);
                            lemma_lines_of_concat(
                                records_of(ks[j - 1], cp, false),
                                forest_records(ks, cp, j as int),
                                colorize,
                            );
                            assert(lines_of(forest_records(ks, cp, (j - 1) as int), colorize)
                                =~= lines_of(records_of(ks[j - 1], cp, false), colorize)
                                + lines_of(forest_records(ks, cp, j as int), colorize));
                            assert(pending_lines(pending, colorize) =~= lines_of(
                                forest_records(ks, cp, (j - 1) as int),
                                colorize,
                            ) + pending_lines(q0, colorize));
                        }
                        j -= 1;
                    }
                    proof {
                        assert(out@ + pending_lines(pending, colorize) =~= spec_render(
                            s,
                            root,
                            colorize,
                        ));
                        assert(pending_size(q_init) == tree_size(t) + pending_size(q0));
                        assert(tree_size(t) == 1 + forest_size(t.kids, 0));
                        assert(pending_size(pending) == forest_size(ks, 0) + pending_size(q0));
                        assert(pending_size(pending) < pending_size(q_init));
                    }
                },
            }
        }
        proof {
            assert(pending_lines(pending, colorize) =~= Seq::<char>::empty());
            assert(out@ =~= spec_render(s, root, colorize));
        }
        out
    }
}

} // verus!
