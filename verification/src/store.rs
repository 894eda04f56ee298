//! A read-only snapshot of the entity graph: the nodes, their optional
//! display labels, their attached component descriptors and their ordered
//! children lists. The snapshot is the sole store handle the renderer reads;
//! it is never mutated during a rendering call.

use vstd::prelude::*;

verus! {

/// A stable entity identity: a slot index plus a generation counter that
/// tells reused slots apart.
#[derive(Clone, Copy, Debug, PartialEq, Eq, Structural)]
pub struct EntityId {
    pub index: u32,
    pub generation: u32,
}

/// One attached component descriptor, exposing its full type path and the
/// short name the renderer prints.
pub struct ComponentInfo {
    pub full_name: String,
    pub short_name: String,
}

/// The mathematical content of one component descriptor.
pub struct CompView {
    pub full_name: Seq<char>,
    pub short_name: Seq<char>,
}

impl View for ComponentInfo {
    type V = CompView;

    open spec fn view(&self) -> CompView {
        CompView { full_name: self.full_name@, short_name: self.short_name@ }
    }
}

/// One node record of a snapshot. A childless node carries `None` for
/// `children`; a present children list is meant to be non-empty (the store
/// contract), and the renderer's precondition enforces exactly that.
pub struct Node {
    pub id: EntityId,
    pub label: Option<String>,
    pub components: Vec<ComponentInfo>,
    pub children: Option<Vec<EntityId>>,
}

/// The mathematical content of one node record.
pub struct NodeView {
    pub id: EntityId,
    pub label: Option<Seq<char>>,
    pub components: Seq<CompView>,
    pub children: Option<Seq<EntityId>>,
}

/// The view of an optional label string.
pub open spec fn label_view(label: Option<String>) -> Option<Seq<char>> {
    match label {
        Some(s) => Some(s@),
        None => None,
    }
}

/// The view of an optional children vector.
pub open spec fn children_view(children: Option<Vec<EntityId>>) -> Option<Seq<EntityId>> {
    match children {
        Some(v) => Some(v@),
        None => None,
    }
}

impl View for Node {
    type V = NodeView;

    open spec fn view(&self) -> NodeView {
        NodeView {
            id: self.id,
            label: label_view(self.label),
            components: self.components@.map_values(|c: ComponentInfo| c@),
            children: children_view(self.children),
        }
    }
}

/// The short names of a node's components, in store enumeration order.
pub open spec fn short_names(components: Seq<CompView>) -> Seq<Seq<char>> {
    components.map_values(|c: CompView| c.short_name)
}

/// A snapshot of the graph store. Lookup finds the first record carrying a
/// given identity, so a snapshot behaves as a map from identity to record.
pub struct Store {
    nodes: Vec<Node>,
}

impl View for Store {
    type V = Seq<NodeView>;

    closed spec fn view(&self) -> Seq<NodeView> {
        self.nodes@.map_values(|n: Node| n@)
    }
}

/// The record the store yields for `id`: the first one carrying that
/// identity, or `None` when the identity is absent.
pub open spec fn lookup(s: Seq<NodeView>, id: EntityId) -> Option<NodeView>
    decreases s.len(),
{
    if s.len() == 0 {
        None
    } else if s[0].id == id {
        Some(s[0])
    } else {
        lookup(s.drop_first(), id)
    }
}

/// Skipping a record that does not carry `id` leaves the lookup unchanged.
proof fn lemma_lookup_skip(s: Seq<NodeView>, id: EntityId, i: int)
    requires
        0 <= i < s.len(),
        s[i].id != id,
    ensures
        lookup(s.skip(i), id) == lookup(s.skip(i + 1), id),
{
    assert(s.skip(i).len() > 0);
    assert(s.skip(i)[0] == s[i]);
    assert(s.skip(i).drop_first() =~= s.skip(i + 1));
}

/// A found record carries the identity it was looked up by.
pub proof fn lemma_lookup_id(s: Seq<NodeView>, id: EntityId)
    requires
        lookup(s, id) is Some,
    ensures
        lookup(s, id)->Some_0.id == id,
    decreases s.len(),
{
    if s.len() > 0 && s[0].id != id {
        lemma_lookup_id(s.drop_first(), id);
    }
}

impl Store {
    /// An empty snapshot.
    pub fn new() -> (s: Store)
        ensures
            s@ == Seq::<NodeView>::empty(),
    {
        let s = Store { nodes: Vec::new() };
        proof {
            assert(s@ =~= Seq::<NodeView>::empty());
        }
        s
    }

    /// Appends one node record to the snapshot.
    pub fn add_node(&mut self, node: Node)
        ensures
            final(self)@ == old(self)@.push(node@),
    {
        let ghost n = node@;
        self.nodes.push(node);
        proof {
            assert(self@ =~= old(self)@.push(n));
        }
    }

    /// Finds the record for `id`, or reports that the identity is absent.
    pub fn find(&self, id: EntityId) -> (r: Option<&Node>)
        ensures
            match r {
                Some(n) => lookup(self@, id) == Some(n@),
                None => lookup(self@, id) is None,
            },
    {
        let mut i: usize = 0;
        proof {
            assert(self@.skip(0) =~= self@);
        }
        while i < self.nodes.len()
            invariant
                i <= self.nodes.len(),
                self@.len() == self.nodes@.len(),
                forall|j: int| 0 <= j < self@.len() ==> self@[j] == self.nodes@[j]@,
                lookup(self@, id) == lookup(self@.skip(i as int), id),
            decreases self.nodes.len() - i,
        {
            if self.nodes[i].id == id {
                proof {
                    assert(self@.skip(i as int)[0] == self@[i as int]);
                }
                return Some(&self.nodes[i]);
            }
            proof {
                lemma_lookup_skip(self@, id, i as int);
            }
            i += 1;
        }
        proof {
            assert(self@.skip(i as int) =~= Seq::<NodeView>::empty());
        }
        None
    }

    /// Fetches the record for an identity the snapshot holds.
    pub fn get_node(&self, id: EntityId) -> (n: &Node)
        requires
            lookup(self@, id) is Some,
        ensures
            lookup(self@, id) == Some(n@),
    {
        match self.find(id) {
            Some(n) => n,
            None => vstd::pervasive::unreached(),
        }
    }

    /// The ordered children of a node, or `None` when it is childless.
    pub fn children_of(&self, id: EntityId) -> (r: Option<&Vec<EntityId>>)
        requires
            lookup(self@, id) is Some,
        ensures
            children_view_ref(r) == lookup(self@, id)->Some_0.children,
    {
        match &self.get_node(id).children {
            Some(v) => Some(v),
            None => None,
        }
    }

    /// The display label of a node, or `None` when it has none.
    pub fn label_of(&self, id: EntityId) -> (r: Option<&String>)
        requires
            lookup(self@, id) is Some,
        ensures
            label_view_ref(r) == lookup(self@, id)->Some_0.label,
    {
        match &self.get_node(id).label {
            Some(s) => Some(s),
            None => None,
        }
    }

    /// The component descriptors attached to a node, in store enumeration
    /// order. A node the store cannot enumerate simply carries an empty
    /// list: a snapshot always enumerates, so "missing enumeration" is
    /// represented as zero components.
    pub fn components_of(&self, id: EntityId) -> (r: &Vec<ComponentInfo>)
        requires
            lookup(self@, id) is Some,
        ensures
            r@.map_values(|c: ComponentInfo| c@) == lookup(self@, id)->Some_0.components,
    {
        &self.get_node(id).components
    }
}

/// The view of an optional borrowed children vector.
pub open spec fn children_view_ref(r: Option<&Vec<EntityId>>) -> Option<Seq<EntityId>> {
    match r {
        Some(v) => Some(v@),
        None => None,
    }
}

/// The view of an optional borrowed label.
pub open spec fn label_view_ref(r: Option<&String>) -> Option<Seq<char>> {
    match r {
        Some(s) => Some(s@),
        None => None,
    }
}

} // verus!
