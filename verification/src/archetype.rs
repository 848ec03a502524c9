//! Archetypes: canonical sets of component kinds, and the trie that maps
//! every kind set to its archetype and answers subset queries.

use crate::component::TypeId;
use crate::component::TypeInfo;
use crate::component::strictly_sorted;
use crate::sparse_set::SparseSet;
use vstd::prelude::*;

verus! {

#[derive(Debug, Clone, Copy, PartialEq, Eq, Structural)]
pub enum Error {
    /// `add_component` on an archetype that already carries the kind.
    AddingComponentDuplicate,
    /// `remove_component` on an archetype that lacks the kind.
    RemovingNonExistingComponent,
    /// The trie was told to insert a kind set it already holds.
    InsertingArchetypeDuplicate,
    /// The trie was told to remove a kind set it does not hold.
    RemovingNonExistingArchetype,
    /// An archetype identifier missed the archetype set.
    NonExistingArchetype,
}

/// A small integer identifying one archetype.
#[derive(Debug, Clone, Copy, Eq, PartialEq, Structural, Hash)]
pub struct ArchetypeId(pub usize);

/// A canonical kind set: the sorted sequence of its kind identifiers.
#[derive(Debug, Clone)]
pub struct Archetype {
    components: Vec<TypeId>,
}

impl Archetype {
    pub closed spec fn ids(self) -> Seq<TypeId> {
        self.components@
    }

    pub open spec fn wf(self) -> bool {
        strictly_sorted(self.ids())
    }

    /// Builds a kind set from an already strictly sorted identifier list.
    pub fn from_sorted_ids(components: Vec<TypeId>) -> (r: Archetype)
        requires
            strictly_sorted(components@),
        ensures
            r.wf(),
            r.ids() == components@,
    {
        Archetype { components }
    }

    /// The kind identifiers, in ascending order.
    pub fn iter(&self) -> (r: Vec<TypeId>)
        ensures
            r@ == self.ids(),
    {
        copy_ids(&self.components)
    }

    pub fn is_empty(&self) -> (r: bool)
        ensures
            r == (self.ids().len() == 0),
    {
        self.components.is_empty()
    }
}

/// The metadata of one archetype: the [`TypeInfo`] of every kind it
/// carries, kept strictly sorted by kind identifier.
#[derive(Debug, Clone)]
pub struct ArchetypeInfo {
    components: Vec<TypeInfo>,
}

impl ArchetypeInfo {
    /// The kind metadata, in ascending identifier order.
    pub closed spec fn infos(self) -> Seq<TypeInfo> {
        self.components@
    }

    /// The kind identifiers, in ascending order.
    pub open spec fn ids(self) -> Seq<TypeId> {
        self.infos().map_values(|t: TypeInfo| t.id)
    }

    pub open spec fn wf(self) -> bool {
        &&& strictly_sorted(self.ids())
        &&& forall|i: int| 0 <= i < self.infos().len() ==> (#[trigger] self.infos()[i]).valid()
    }

    /// Whether the archetype carries kind `k`.
    pub open spec fn has(self, k: TypeId) -> bool {
        exists|i: int| 0 <= i < self.infos().len() && (#[trigger] self.infos()[i]).id == k
    }

    /// The metadata of kind `k`.
    pub open spec fn info_of(self, k: TypeId) -> TypeInfo
        recommends
            self.has(k),
    {
        self.infos()[choose|i: int|
            0 <= i < self.infos().len() && (#[trigger] self.infos()[i]).id == k]
    }

    pub fn new() -> (r: ArchetypeInfo)
        ensures
            r.wf(),
            r.infos() =~= Seq::<TypeInfo>::empty(),
            forall|k: TypeId| !r.has(k),
    {
        ArchetypeInfo { components: Vec::new() }
    }

    pub fn len(&self) -> (r: usize)
        ensures
            r == self.infos().len(),
    {
        self.components.len()
    }

    pub fn is_empty(&self) -> (r: bool)
        ensures
            r == (self.infos().len() == 0),
    {
        self.components.is_empty()
    }

    /// Where `k` sits, or where it would have to be inserted to keep the
    /// list sorted.
    fn search(&self, k: TypeId) -> (r: (usize, bool))
        requires
            self.wf(),
        ensures
            r.0 <= self.infos().len(),
            r.1 ==> r.0 < self.infos().len() && self.infos()[r.0 as int].id == k,
            !r.1 ==> !self.has(k),
            forall|i: int| 0 <= i < r.0 ==> (#[trigger] self.infos()[i]).id.0 < k.0,
            !r.1 ==> forall|i: int|
                r.0 <= i < self.infos().len() ==> k.0 < (#[trigger] self.infos()[i]).id.0,
    {
        let mut i: usize = 0;
        while i < self.components.len() && self.components[i].id.0 < k.0
            invariant
                self.wf(),
                i <= self.infos().len(),
                forall|j: int| 0 <= j < i ==> (#[trigger] self.infos()[j]).id.0 < k.0,
            decreases self.infos().len() - i,
        {
            i = i + 1;
        }
        if i < self.components.len() && self.components[i].id.0 == k.0 {
            proof {
                assert(self.infos()[i as int].id.0 == k.0);
                assert(self.infos()[i as int].id == k) by {
                    assert(self.infos()[i as int].id.0 == k.0);
                }
            }
            (i, true)
        } else {
            proof {
                assert forall|j: int|
                    i <= j < self.infos().len() implies k.0 < (#[trigger] self.infos()[j]).id.0 by {
                    assert(self.ids()[i as int].0 <= self.ids()[j].0);
                }
                assert(!self.has(k)) by {
                    if self.has(k) {
                        let w = choose|w: int|
                            0 <= w < self.infos().len() && (#[trigger] self.infos()[w]).id == k;
                        if w < i {
                            assert(self.infos()[w].id.0 < k.0);
                        }
                    }
                }
            }
            (i, false)
        }
    }

    /// Records kind `info` on the archetype; refuses a kind already there.
    pub fn add_component(&mut self, info: TypeInfo) -> (r: Result<(), Error>)
        requires
            old(self).wf(),
            info.valid(),
        ensures
            final(self).wf(),
            match r {
                Ok(()) => {
                    &&& !old(self).has(info.id)
                    &&& final(self).has(info.id)
                    &&& final(self).info_of(info.id) == info
                    &&& final(self).infos().len() == old(self).infos().len() + 1
                    &&& forall|k: TypeId|
                        k != info.id ==> final(self).has(k) == old(self).has(k)
                    &&& forall|k: TypeId|
                        k != info.id && old(self).has(k) ==> final(self).info_of(k) == old(self).info_of(k)
                },
                Err(e) => e == Error::AddingComponentDuplicate && old(self).has(info.id) && *final(self) == *old(self),
            },
    {
        let (pos, found) = self.search(info.id);
        if found {
            Err(Error::AddingComponentDuplicate)
        } else {
            let ghost prev = *self;
            self.components.insert(pos, info);
            proof {
                lemma_info_insert(prev, *self, pos as int, info);
            }
            Ok(())
        }
    }

    /// Whether the archetype carries kind `k`.
    pub fn has_component(&self, k: TypeId) -> (r: bool)
        requires
            self.wf(),
        ensures
            r == self.has(k),
    {
        let (_, found) = self.search(k);
        found
    }

    /// Strikes kind `k` off the archetype; refuses a kind it lacks.
    pub fn remove_component(&mut self, k: TypeId) -> (r: Result<(), Error>)
        requires
            old(self).wf(),
        ensures
            final(self).wf(),
            match r {
                Ok(()) => {
                    &&& old(self).has(k)
                    &&& !final(self).has(k)
                    &&& final(self).infos().len() == old(self).infos().len() - 1
                    &&& forall|x: TypeId| x != k ==> final(self).has(x) == old(self).has(x)
                    &&& forall|x: TypeId|
                        x != k && old(self).has(x) ==> final(self).info_of(x) == old(self).info_of(
                            x,
                        )
                },
                Err(e) => e == Error::RemovingNonExistingComponent && !old(self).has(k) && *final(self) == *old(self),
            },
    {
        let (pos, found) = self.search(k);
        if found {
            let ghost prev = *self;
            self.components.remove(pos);
            proof {
                lemma_info_remove(prev, *self, pos as int, k);
            }
            Ok(())
        } else {
            Err(Error::RemovingNonExistingComponent)
        }
    }

    /// An owned copy of this archetype's metadata.
    pub fn duplicate(&self) -> (r: ArchetypeInfo)
        ensures
            r.infos() == self.infos(),
    {
        ArchetypeInfo { components: self.iter() }
    }

    /// The kind metadata, in ascending identifier order.
    pub fn iter(&self) -> (r: Vec<TypeInfo>)
        ensures
            r@ == self.infos(),
    {
        let mut r: Vec<TypeInfo> = Vec::new();
        let mut i: usize = 0;
        while i < self.components.len()
            invariant
                i <= self.infos().len(),
                r@ =~= self.infos().subrange(0, i as int),
            decreases self.infos().len() - i,
        {
            r.push(self.components[i]);
            proof {
                assert(r@ =~= self.infos().subrange(0, i as int + 1));
            }
            i = i + 1;
        }
        proof {
            assert(r@ =~= self.infos());
        }
        r
    }

    /// The kind identifiers, ascending.
    pub fn as_sorted_vec_of_component_ids(&self) -> (r: Vec<TypeId>)
        ensures
            r@ == self.ids(),
    {
        let mut r: Vec<TypeId> = Vec::new();
        let mut i: usize = 0;
        while i < self.components.len()
            invariant
                i <= self.infos().len(),
                r@.len() == i,
                forall|j: int| 0 <= j < i ==> r@[j] == self.ids()[j],
            decreases self.infos().len() - i,
        {
            r.push(self.components[i].id);
            i = i + 1;
        }
        proof {
            assert(r@ =~= self.ids());
        }
        r
    }

    /// The canonical kind set of this archetype.
    pub fn archetype(&self) -> (r: Archetype)
        requires
            self.wf(),
        ensures
            r.wf(),
            r.ids() == self.ids(),
    {
        Archetype { components: self.as_sorted_vec_of_component_ids() }
    }
}

/// The one index that carries identifier `k` in a strictly sorted list.
pub proof fn lemma_unique_id_index(a: ArchetypeInfo, i: int, k: TypeId)
    requires
        a.wf(),
        0 <= i < a.infos().len(),
        a.infos()[i].id == k,
    ensures
        a.has(k),
        a.info_of(k) == a.infos()[i],
{
    let w = choose|w: int| 0 <= w < a.infos().len() && (#[trigger] a.infos()[w]).id == k;
    if w != i {
        assert(a.ids()[w] == k);
        assert(a.ids()[i] == k);
        if w < i {
            assert(a.ids()[w].0 < a.ids()[i].0);
        } else {
            assert(a.ids()[i].0 < a.ids()[w].0);
        }
    }
}

/// What inserting one kind at its sorted position does to the views.
proof fn lemma_info_insert(prev: ArchetypeInfo, cur: ArchetypeInfo, pos: int, info: TypeInfo)
    requires
        prev.wf(),
        info.valid(),
        0 <= pos <= prev.infos().len(),
        forall|i: int| 0 <= i < pos ==> (#[trigger] prev.infos()[i]).id.0 < info.id.0,
        forall|i: int|
            pos <= i < prev.infos().len() ==> info.id.0 < (#[trigger] prev.infos()[i]).id.0,
        cur.infos() == prev.infos().insert(pos, info),
    ensures
        cur.wf(),
        cur.has(info.id),
        cur.info_of(info.id) == info,
        forall|k: TypeId| k != info.id ==> cur.has(k) == prev.has(k),
        forall|k: TypeId| k != info.id && prev.has(k) ==> cur.info_of(k) == prev.info_of(k),
{
    assert forall|i: int, j: int| 0 <= i < j < cur.ids().len() implies cur.ids()[i].0
        < cur.ids()[j].0 by {
        assert(cur.ids()[i] == cur.infos()[i].id);
        assert(cur.ids()[j] == cur.infos()[j].id);
        if i == pos {
            assert(cur.infos()[j] == prev.infos()[j - 1]);
            assert(info.id.0 < prev.infos()[j - 1].id.0);
        } else if j == pos {
            assert(cur.infos()[i] == prev.infos()[i]);
            assert(prev.infos()[i].id.0 < info.id.0);
        } else {
            let pi: int = if i < pos {
                i
            } else {
                i - 1
            };
            let pj: int = if j < pos {
                j
            } else {
                j - 1
            };
            assert(cur.infos()[i] == prev.infos()[pi]);
            assert(cur.infos()[j] == prev.infos()[pj]);
            assert(prev.ids()[pi] == prev.infos()[pi].id);
            assert(prev.ids()[pj] == prev.infos()[pj].id);
            assert(prev.ids()[pi].0 < prev.ids()[pj].0);
        }
    }
    assert(cur.infos()[pos] == info);
    lemma_unique_id_index(cur, pos, info.id);
    assert forall|k: TypeId| k != info.id implies cur.has(k) == prev.has(k) by {
        if prev.has(k) {
            let w = choose|w: int| 0 <= w < prev.infos().len() && (#[trigger] prev.infos()[w]).id == k;
            if w < pos {
                assert(cur.infos()[w] == prev.infos()[w]);
                lemma_unique_id_index(cur, w, k);
            } else {
                assert(cur.infos()[w + 1] == prev.infos()[w]);
                lemma_unique_id_index(cur, w + 1, k);
            }
        }
        if cur.has(k) {
            let w = choose|w: int| 0 <= w < cur.infos().len() && (#[trigger] cur.infos()[w]).id == k;
            if w < pos {
                assert(prev.infos()[w].id == k);
            } else if w > pos {
                assert(prev.infos()[w - 1].id == k);
            }
        }
    }
    assert forall|k: TypeId| k != info.id && prev.has(k) implies cur.info_of(k) == prev.info_of(
        k,
    ) by {
        let w = choose|w: int| 0 <= w < prev.infos().len() && (#[trigger] prev.infos()[w]).id == k;
        lemma_unique_id_index(prev, w, k);
        if w < pos {
            assert(cur.infos()[w] == prev.infos()[w]);
            lemma_unique_id_index(cur, w, k);
        } else {
            assert(cur.infos()[w + 1] == prev.infos()[w]);
            lemma_unique_id_index(cur, w + 1, k);
        }
    }
}

/// What removing one kind does to the views.
proof fn lemma_info_remove(prev: ArchetypeInfo, cur: ArchetypeInfo, pos: int, k: TypeId)
    requires
        prev.wf(),
        0 <= pos < prev.infos().len(),
        prev.infos()[pos].id == k,
        cur.infos() == prev.infos().remove(pos),
    ensures
        cur.wf(),
        !cur.has(k),
        forall|x: TypeId| x != k ==> cur.has(x) == prev.has(x),
        forall|x: TypeId| x != k && prev.has(x) ==> cur.info_of(x) == prev.info_of(x),
{
    assert forall|i: int, j: int| 0 <= i < j < cur.ids().len() implies cur.ids()[i].0
        < cur.ids()[j].0 by {
        assert(cur.ids()[i] == cur.infos()[i].id);
        assert(cur.ids()[j] == cur.infos()[j].id);
        let pi: int = if i < pos {
            i
        } else {
            i + 1
        };
        let pj: int = if j < pos {
            j
        } else {
            j + 1
        };
        assert(cur.infos()[i] == prev.infos()[pi]);
        assert(cur.infos()[j] == prev.infos()[pj]);
        assert(prev.ids()[pi] == prev.infos()[pi].id);
        assert(prev.ids()[pj] == prev.infos()[pj].id);
        assert(prev.ids()[pi].0 < prev.ids()[pj].0);
    }
    assert(forall|i: int|
        0 <= i < cur.infos().len() ==> (#[trigger] cur.infos()[i]) == if i < pos {
            prev.infos()[i]
        } else {
            prev.infos()[i + 1]
        });
    assert forall|i: int| 0 <= i < cur.infos().len() implies (#[trigger] cur.infos()[i]).id != k by {
        lemma_unique_id_index(prev, pos, k);
        if i < pos {
            assert(prev.ids()[i].0 < prev.ids()[pos].0);
        } else {
            assert(prev.ids()[pos].0 < prev.ids()[i + 1].0);
        }
    }
    assert forall|x: TypeId| x != k implies cur.has(x) == prev.has(x) by {
        if prev.has(x) {
            let w = choose|w: int| 0 <= w < prev.infos().len() && (#[trigger] prev.infos()[w]).id == x;
            assert(w != pos);
            if w < pos {
                assert(cur.infos()[w].id == x);
            } else {
                assert(cur.infos()[w - 1] == prev.infos()[w]);
            }
        }
        if cur.has(x) {
            let w = choose|w: int| 0 <= w < cur.infos().len() && (#[trigger] cur.infos()[w]).id == x;
            if w < pos {
                assert(prev.infos()[w].id == x);
            } else {
                assert(prev.infos()[w + 1].id == x);
            }
        }
    }
    assert forall|x: TypeId| x != k && prev.has(x) implies cur.info_of(x) == prev.info_of(x) by {
        let w = choose|w: int| 0 <= w < prev.infos().len() && (#[trigger] prev.infos()[w]).id == x;
        lemma_unique_id_index(prev, w, x);
        assert(w != pos);
        if w < pos {
            lemma_unique_id_index(cur, w, x);
        } else {
            assert(cur.infos()[w - 1] == prev.infos()[w]);
            lemma_unique_id_index(cur, w - 1, x);
        }
    }
}

impl Archetypes {
    /// Searching the trie for a stored kind set returns exactly that kind
    /// set's archetype, and no other kind set reaches the same archetype.
    pub proof fn lemma_search_exact(self, p: Seq<TypeId>, q: Seq<TypeId>)
        requires
            self.wf(),
            self.trie_at(p) is Some,
            q != p,
        ensures
            self.spec_info(self.trie_at(p).unwrap()).ids() == p,
            self.trie_at(q) != self.trie_at(p),
    {
        self.lemma_trie_entry(p);
        if self.trie_at(q) == self.trie_at(p) {
            self.lemma_trie_entry(q);
        }
    }
}

impl Default for ArchetypeInfo {
    fn default() -> (r: ArchetypeInfo)
        ensures
            r.wf(),
            r.infos() =~= Seq::<TypeInfo>::empty(),
            forall|k: TypeId| !r.has(k),
    {
        ArchetypeInfo::new()
    }
}

impl Default for ArchetypesTrie {
    fn default() -> (r: ArchetypesTrie)
        ensures
            r.wf(),
            forall|p: Seq<TypeId>| (#[trigger] r.spec_search(p)) is None,
    {
        ArchetypesTrie::new()
    }
}

impl Default for Archetypes {
    fn default() -> (r: Archetypes)
        ensures
            r.wf(),
            forall|p: Seq<TypeId>| (#[trigger] r.trie_at(p)) is None,
            forall|a: ArchetypeId| !r.spec_contains(a),
    {
        Archetypes::new()
    }
}

/// Two well-formed archetypes with the same kind identifiers and the
/// same per-kind metadata carry the same metadata sequence.
pub proof fn lemma_info_eq(a: ArchetypeInfo, b: ArchetypeInfo)
    requires
        a.wf(),
        b.wf(),
        a.ids() == b.ids(),
        forall|k: TypeId| a.has(k) ==> #[trigger] a.info_of(k) == b.info_of(k),
    ensures
        a.infos() == b.infos(),
{
    assert(a.ids().len() == a.infos().len());
    assert(b.ids().len() == b.infos().len());
    assert(b.infos().len() == a.infos().len());
    assert forall|i: int| 0 <= i < a.infos().len() implies a.infos()[i] == b.infos()[i] by {
        let k = a.infos()[i].id;
        assert(a.ids()[i] == a.infos()[i].id);
        assert(b.ids()[i] == b.infos()[i].id);
        assert(a.ids()[i] == k);
        assert(b.ids()[i] == k);
        assert(b.infos()[i].id == k);
        lemma_unique_id_index(a, i, k);
        lemma_unique_id_index(b, i, k);
        assert(a.has(k));
    }
    assert(a.infos() =~= b.infos());
}

/// Copies a list of kind identifiers.
fn copy_ids(v: &Vec<TypeId>) -> (r: Vec<TypeId>)
    ensures
        r@ == v@,
{
    let mut r: Vec<TypeId> = Vec::new();
    let mut i: usize = 0;
    while i < v.len()
        invariant
            i <= v@.len(),
            r@ =~= v@.subrange(0, i as int),
        decreases v@.len() - i,
    {
        r.push(v[i]);
        proof {
            assert(r@ =~= v@.subrange(0, i as int + 1));
        }
        i = i + 1;
    }
    proof {
        assert(r@ =~= v@);
    }
    r
}

/// One trie node: a kind identifier, a terminal marker where a kind set
/// ends here, and the children, sorted by kind identifier.
#[derive(Debug)]
pub struct ArchetypeNode {
    pub component_id: TypeId,
    pub archetype_id: Option<ArchetypeId>,
    pub following_nodes: Vec<ArchetypeNode>,
}

impl ArchetypeNode {
    pub fn new(component: TypeId) -> (r: ArchetypeNode)
        ensures
            r.component_id == component,
            r.archetype_id is None,
            r.following_nodes@ =~= Seq::<ArchetypeNode>::empty(),
    {
        ArchetypeNode { component_id: component, archetype_id: None, following_nodes: Vec::new() }
    }
}

/// What a forest of trie nodes maps a non-empty identifier path to:
/// descend through the first node carrying each identifier in turn, and
/// read the terminal marker where the path ends.
pub open spec fn forest_lookup(nodes: Seq<ArchetypeNode>, p: Seq<TypeId>) -> Option<ArchetypeId>
    decreases nodes,
{
    if p.len() == 0 || nodes.len() == 0 {
        None
    } else if nodes[0].component_id == p[0] {
        if p.len() == 1 {
            nodes[0].archetype_id
        } else {
            forest_lookup(nodes[0].following_nodes@, p.drop_first())
        }
    } else {
        forest_lookup(nodes.drop_first(), p)
    }
}

/// Nodes of one level are strictly sorted, every child carries a larger
/// identifier than its parent, and the same holds below.
pub open spec fn forest_wf(nodes: Seq<ArchetypeNode>) -> bool
    decreases nodes,
{
    &&& forall|a: int, b: int|
        0 <= a < b < nodes.len() ==> (#[trigger] nodes[a].component_id).0
            < (#[trigger] nodes[b].component_id).0
    &&& forall|i: int, j: int|
        0 <= i < nodes.len() && 0 <= j < nodes[i].following_nodes@.len() ==> (
        #[trigger] nodes[i].following_nodes@[j]).component_id.0 > nodes[i].component_id.0
    &&& forall|i: int|
        0 <= i < nodes.len() ==> forest_wf((#[trigger] nodes[i]).following_nodes@)
}

/// Looking a path up reads the first node carrying its head, and descends.
proof fn lemma_lookup_at(nodes: Seq<ArchetypeNode>, i: int, p: Seq<TypeId>)
    requires
        0 <= i < nodes.len(),
        p.len() >= 1,
        nodes[i].component_id == p[0],
        forall|j: int| 0 <= j < i ==> (#[trigger] nodes[j].component_id) != p[0],
    ensures
        forest_lookup(nodes, p) == if p.len() == 1 {
            nodes[i].archetype_id
        } else {
            forest_lookup(nodes[i].following_nodes@, p.drop_first())
        },
    decreases i,
{
    if i > 0 {
        lemma_lookup_at(nodes.drop_first(), i - 1, p);
        assert(nodes.drop_first()[i - 1] == nodes[i]);
        assert forall|j: int|
            0 <= j < i - 1 implies (#[trigger] nodes.drop_first()[j].component_id) != p[0] by {
            assert(nodes.drop_first()[j] == nodes[j + 1]);
        }
    }
}

/// A path whose head no node of the level carries is absent.
proof fn lemma_lookup_absent(nodes: Seq<ArchetypeNode>, p: Seq<TypeId>)
    requires
        p.len() >= 1,
        forall|j: int| 0 <= j < nodes.len() ==> (#[trigger] nodes[j].component_id) != p[0],
    ensures
        forest_lookup(nodes, p) is None,
    decreases nodes,
{
    if nodes.len() > 0 {
        lemma_lookup_absent(nodes.drop_first(), p);
        assert forall|j: int|
            0 <= j < nodes.drop_first().len() implies (
        #[trigger] nodes.drop_first()[j].component_id) != p[0] by {
            assert(nodes.drop_first()[j] == nodes[j + 1]);
        }
    }
}

/// Lookup only reads the nodes that carry the path's head: two levels that
/// agree on identifiers, and on every node carrying the head, look up alike.
proof fn lemma_lookup_frame(n1: Seq<ArchetypeNode>, n2: Seq<ArchetypeNode>, p: Seq<TypeId>)
    requires
        n1.len() == n2.len(),
        forall|j: int|
            0 <= j < n1.len() ==> (#[trigger] n1[j].component_id) == n2[j].component_id,
        forall|j: int|
            0 <= j < n1.len() && (#[trigger] n1[j].component_id) == p[0] ==> n1[j] == n2[j],
        p.len() >= 1,
    ensures
        forest_lookup(n1, p) == forest_lookup(n2, p),
    decreases n1,
{
    if n1.len() > 0 {
        if n1[0].component_id == p[0] {
            assert(n1[0] == n2[0]);
        } else {
            lemma_lookup_frame(n1.drop_first(), n2.drop_first(), p);
            assert forall|j: int|
                0 <= j < n1.drop_first().len() implies (#[trigger] n1.drop_first()[j].component_id)
                == n2.drop_first()[j].component_id by {
                assert(n1.drop_first()[j] == n1[j + 1]);
                assert(n2.drop_first()[j] == n2[j + 1]);
            }
            assert forall|j: int|
                0 <= j < n1.drop_first().len() && (#[trigger] n1.drop_first()[j].component_id)
                    == p[0] implies n1.drop_first()[j] == n2.drop_first()[j] by {
                assert(n1.drop_first()[j] == n1[j + 1]);
                assert(n2.drop_first()[j] == n2[j + 1]);
            }
        }
    }
}

/// Inserting a node whose identifier no sibling carries leaves every other
/// path alone, and serves paths opening with the fresh identifier itself.
proof fn lemma_lookup_insert(
    nodes: Seq<ArchetypeNode>,
    pos: int,
    node: ArchetypeNode,
    p: Seq<TypeId>,
)
    requires
        0 <= pos <= nodes.len(),
        p.len() >= 1,
        forall|j: int|
            0 <= j < nodes.len() ==> (#[trigger] nodes[j].component_id) != node.component_id,
    ensures
        p[0] == node.component_id ==> forest_lookup(nodes.insert(pos, node), p) == if p.len()
            == 1 {
            node.archetype_id
        } else {
            forest_lookup(node.following_nodes@, p.drop_first())
        },
        p[0] != node.component_id ==> forest_lookup(nodes.insert(pos, node), p) == forest_lookup(
            nodes,
            p,
        ),
    decreases nodes.len() + pos,
{
    let n2 = nodes.insert(pos, node);
    if p[0] == node.component_id {
        assert forall|j: int| 0 <= j < pos implies (#[trigger] n2[j].component_id) != p[0] by {
            assert(n2[j] == nodes[j]);
        }
        assert(n2[pos] == node);
        lemma_lookup_at(n2, pos, p);
    } else {
        if pos == 0 {
            assert(n2[0] == node);
            assert(n2.drop_first() =~= nodes);
        } else {
            assert(n2[0] == nodes[0]);
            if nodes[0].component_id == p[0] {
            } else {
                assert(n2.drop_first() =~= nodes.drop_first().insert(pos - 1, node));
                assert forall|j: int|
                    0 <= j < nodes.drop_first().len() implies (
                #[trigger] nodes.drop_first()[j].component_id) != node.component_id by {
                    assert(nodes.drop_first()[j] == nodes[j + 1]);
                }
                lemma_lookup_insert(nodes.drop_first(), pos - 1, node, p);
            }
        }
    }
}

/// Where identifier `k` sits in a sorted trie level, or where it would be
/// inserted.
fn level_search(nodes: &Vec<ArchetypeNode>, k: TypeId) -> (r: (usize, bool))
    requires
        forest_wf(nodes@),
    ensures
        r.0 <= nodes@.len(),
        r.1 ==> r.0 < nodes@.len() && nodes@[r.0 as int].component_id == k,
        forall|j: int| 0 <= j < r.0 ==> (#[trigger] nodes@[j].component_id).0 < k.0,
        !r.1 ==> forall|j: int|
            r.0 <= j < nodes@.len() ==> k.0 < (#[trigger] nodes@[j].component_id).0,
        !r.1 ==> forall|j: int|
            0 <= j < nodes@.len() ==> (#[trigger] nodes@[j].component_id) != k,
    {
    let mut i: usize = 0;
    while i < nodes.len() && nodes[i].component_id.0 < k.0
        invariant
            forest_wf(nodes@),
            i <= nodes@.len(),
            forall|j: int| 0 <= j < i ==> (#[trigger] nodes@[j].component_id).0 < k.0,
        decreases nodes@.len() - i,
    {
        i = i + 1;
    }
    if i < nodes.len() && nodes[i].component_id.0 == k.0 {
        proof {
            assert(nodes@[i as int].component_id == k) by {
                assert(nodes@[i as int].component_id.0 == k.0);
            }
        }
        (i, true)
    } else {
        proof {
            assert forall|j: int|
                i <= j < nodes@.len() implies k.0 < (#[trigger] nodes@[j].component_id).0 by {
                if j > i {
                    assert(nodes@[i as int].component_id.0 < nodes@[j].component_id.0);
                }
            }
        }
        (i, false)
    }
}

/// Removing the node that carries a path's head removes exactly the paths
/// through it; a removed childless node serves no other path.
proof fn lemma_lookup_remove(nodes: Seq<ArchetypeNode>, pos: int, p: Seq<TypeId>)
    requires
        0 <= pos < nodes.len(),
        p.len() >= 1,
        forall|a: int, b: int|
            0 <= a < b < nodes.len() ==> (#[trigger] nodes[a].component_id) != (
            #[trigger] nodes[b].component_id),
    ensures
        p[0] == nodes[pos].component_id ==> forest_lookup(nodes.remove(pos), p) is None,
        p[0] != nodes[pos].component_id ==> forest_lookup(nodes.remove(pos), p) == forest_lookup(
            nodes,
            p,
        ),
    decreases pos,
{
    let n2 = nodes.remove(pos);
    if p[0] == nodes[pos].component_id {
        assert forall|j: int| 0 <= j < n2.len() implies (#[trigger] n2[j].component_id) != p[0] by {
            if j < pos {
                assert(n2[j] == nodes[j]);
            } else {
                assert(n2[j] == nodes[j + 1]);
            }
        }
        lemma_lookup_absent(n2, p);
    } else {
        if pos == 0 {
            assert(n2 =~= nodes.drop_first());
        } else {
            assert(n2[0] == nodes[0]);
            if nodes[0].component_id == p[0] {
                lemma_lookup_at(nodes, 0, p);
                lemma_lookup_at(n2, 0, p);
            } else {
                assert(n2.drop_first() =~= nodes.drop_first().remove(pos - 1));
                assert forall|a: int, b: int|
                    0 <= a < b < nodes.drop_first().len() implies (
                #[trigger] nodes.drop_first()[a].component_id) != (
                #[trigger] nodes.drop_first()[b].component_id) by {
                    assert(nodes.drop_first()[a] == nodes[a + 1]);
                    assert(nodes.drop_first()[b] == nodes[b + 1]);
                }
                lemma_lookup_remove(nodes.drop_first(), pos - 1, p);
            }
        }
    }
}

/// Looks a path suffix up in a forest.
fn search_rec(nodes: &Vec<ArchetypeNode>, ids: &Vec<TypeId>, index: usize) -> (r: Option<
    ArchetypeId,
>)
    requires
        forest_wf(nodes@),
        index < ids@.len(),
    ensures
        r == forest_lookup(nodes@, ids@.skip(index as int)),
    decreases ids@.len() - index,
{
    let ghost suffix = ids@.skip(index as int);
    proof {
        assert(suffix[0] == ids@[index as int]);
    }
    let (pos, found) = level_search(nodes, ids[index]);
    if !found {
        proof {
            lemma_lookup_absent(nodes@, suffix);
        }
        None
    } else {
        proof {
            assert forall|j: int|
                0 <= j < pos implies (#[trigger] nodes@[j].component_id) != suffix[0] by {
                assert(nodes@[j].component_id.0 < suffix[0].0);
            }
            lemma_lookup_at(nodes@, pos as int, suffix);
        }
        if index == ids.len() - 1 {
            nodes[pos].archetype_id
        } else {
            proof {
                assert(suffix.drop_first() =~= ids@.skip(index as int + 1));
                assert(forest_wf(nodes@[pos as int].following_nodes@));
            }
            search_rec(&nodes[pos].following_nodes, ids, index + 1)
        }
    }
}

/// Inserts a path suffix mapping to `aid` into a forest.
fn insert_rec(
    nodes: &mut Vec<ArchetypeNode>,
    ids: &Vec<TypeId>,
    index: usize,
    aid: ArchetypeId,
) -> (r: Result<(), Error>)
    requires
        forest_wf(old(nodes)@),
        strictly_sorted(ids@),
        index < ids@.len(),
    ensures
        forest_wf(final(nodes)@),
        forall|j: int|
            0 <= j < final(nodes)@.len() ==> (#[trigger] final(nodes)@[j].component_id)
                == ids@[index as int] || exists|k: int|
                0 <= k < old(nodes)@.len() && (#[trigger] old(nodes)@[k].component_id)
                    == final(nodes)@[j].component_id,
        match r {
            Ok(()) => forest_lookup(old(nodes)@, ids@.skip(index as int)) is None && forall|
                p: Seq<TypeId>,
            |
                #[trigger] forest_lookup(final(nodes)@, p) == if p == ids@.skip(index as int) {
                    Some(aid)
                } else {
                    forest_lookup(old(nodes)@, p)
                },
            Err(e) => e == Error::InsertingArchetypeDuplicate && forest_lookup(
                old(nodes)@,
                ids@.skip(index as int),
            ) is Some && forall|p: Seq<TypeId>|
                #[trigger] forest_lookup(final(nodes)@, p) == forest_lookup(old(nodes)@, p),
        },
    decreases ids@.len() - index,
{
    let ghost suffix = ids@.skip(index as int);
    proof {
        assert(suffix[0] == ids@[index as int]);
    }
    let (pos, found) = level_search(nodes, ids[index]);
    let last = index == ids.len() - 1;
    if found {
        proof {
            assert forall|j: int|
                0 <= j < pos implies (#[trigger] old(nodes)@[j].component_id) != suffix[0] by {
                assert(old(nodes)@[j].component_id.0 < suffix[0].0);
            }
            lemma_lookup_at(old(nodes)@, pos as int, suffix);
        }
        let mut node = ArchetypeNode::new(TypeId(0));
        core::mem::swap(&mut node, &mut nodes[pos]);
        proof {
            assert(node == old(nodes)@[pos as int]);
        }
        if last {
            if node.archetype_id.is_some() {
                nodes.set(pos, node);
                proof {
                    assert(nodes@ =~= old(nodes)@);
                }
                Err(Error::InsertingArchetypeDuplicate)
            } else {
                node.archetype_id = Some(aid);
                nodes.set(pos, node);
                proof {
                    assert(nodes@ =~= old(nodes)@.update(pos as int, node));
                    lemma_level_update_wf(old(nodes)@, nodes@, pos as int);
                    assert forall|p: Seq<TypeId>|
                        #[trigger] forest_lookup(nodes@, p) == if p == suffix {
                            Some(aid)
                        } else {
                            forest_lookup(old(nodes)@, p)
                        } by {
                        lemma_insert_terminal_effect(old(nodes)@, nodes@, pos as int, suffix, p);
                    }
                }
                Ok(())
            }
        } else {
            proof {
                assert(forest_wf(node.following_nodes@));
            }
            let r = insert_rec(&mut node.following_nodes, ids, index + 1, aid);
            nodes.set(pos, node);
            proof {
                assert(nodes@ =~= old(nodes)@.update(pos as int, node));
                let prev_node = old(nodes)@[pos as int];
                assert(forest_wf(prev_node.following_nodes@));
                assert(suffix.drop_first() =~= ids@.skip(index as int + 1));
                assert forall|j: int|
                    0 <= j < node.following_nodes@.len() implies (
                #[trigger] node.following_nodes@[j]).component_id.0 > node.component_id.0 by {
                    assert(ids@[index as int + 1].0 > ids@[index as int].0);
                    if node.following_nodes@[j].component_id != ids@[index as int + 1] {
                        let k = choose|k: int|
                            0 <= k < prev_node.following_nodes@.len() && (
                            #[trigger] prev_node.following_nodes@[k].component_id)
                                == node.following_nodes@[j].component_id;
                        assert(prev_node.following_nodes@[k].component_id.0
                            > prev_node.component_id.0);
                    }
                }
                lemma_level_update_wf(old(nodes)@, nodes@, pos as int);
                if r is Ok {
                    assert(forest_lookup(old(nodes)@, suffix) is None);
                    assert forall|p: Seq<TypeId>|
                        #[trigger] forest_lookup(nodes@, p) == if p == suffix {
                            Some(aid)
                        } else {
                            forest_lookup(old(nodes)@, p)
                        } by {
                        lemma_insert_descend_effect(
                            old(nodes)@,
                            nodes@,
                            pos as int,
                            suffix,
                            aid,
                            p,
                        );
                    }
                } else {
                    assert(forest_lookup(old(nodes)@, suffix) is Some);
                    assert forall|p: Seq<TypeId>|
                        #[trigger] forest_lookup(nodes@, p) == forest_lookup(old(nodes)@, p) by {
                        lemma_same_shape_effect(old(nodes)@, nodes@, pos as int, p);
                    }
                }
            }
            r
        }
    } else {
        proof {
            lemma_lookup_absent(old(nodes)@, suffix);
        }
        let node = if last {
            let mut n = ArchetypeNode::new(ids[index]);
            n.archetype_id = Some(aid);
            n
        } else {
            let mut fresh: Vec<ArchetypeNode> = Vec::new();
            let r2 = insert_rec(&mut fresh, ids, index + 1, aid);
            proof {
                if r2 is Err {
                    assert(forest_lookup(Seq::<ArchetypeNode>::empty(), ids@.skip(index as int + 1))
                        is Some);
                    assert(false);
                }
            }
            ArchetypeNode { component_id: ids[index], archetype_id: None, following_nodes: fresh }
        };
        let ghost n = node;
        nodes.insert(pos, node);
        proof {
            lemma_level_insert_wf(old(nodes)@, nodes@, pos as int, n, ids@, index as int);
            assert forall|p: Seq<TypeId>|
                #[trigger] forest_lookup(nodes@, p) == if p == suffix {
                    Some(aid)
                } else {
                    forest_lookup(old(nodes)@, p)
                } by {
                if p.len() == 0 {
                } else {
                    lemma_lookup_insert(old(nodes)@, pos as int, n, p);
                    if p[0] == n.component_id {
                        lemma_lookup_absent(old(nodes)@, p);
                        if p.len() == 1 {
                            if last {
                                assert(suffix.len() == 1);
                                assert(p =~= suffix);
                            } else {
                                assert(p != suffix);
                            }
                        } else {
                            assert(suffix.drop_first() =~= ids@.skip(index as int + 1));
                            if last {
                                assert(forest_lookup(n.following_nodes@, p.drop_first()) is None);
                                assert(p != suffix);
                            } else {
                                if p.drop_first() == suffix.drop_first() {
                                    lemma_seq_head_tail_eq(p, suffix);
                                } else {
                                    assert(p != suffix);
                                    assert(forest_lookup(n.following_nodes@, p.drop_first())
                                        == forest_lookup(
                                        Seq::<ArchetypeNode>::empty(),
                                        p.drop_first(),
                                    ));
                                }
                            }
                        }
                    } else {
                        assert(p != suffix);
                    }
                }
            }
        }
        Ok(())
    }
}

/// Removes a path suffix from a forest: the terminal node loses its
/// marker, or the whole node where nothing hangs below it.
fn remove_rec(nodes: &mut Vec<ArchetypeNode>, ids: &Vec<TypeId>, index: usize) -> (r: Result<
    (),
    Error,
>)
    requires
        forest_wf(old(nodes)@),
        index < ids@.len(),
    ensures
        forest_wf(final(nodes)@),
        forall|j: int|
            0 <= j < final(nodes)@.len() ==> exists|k: int|
                0 <= k < old(nodes)@.len() && (#[trigger] old(nodes)@[k].component_id) == (
                #[trigger] final(nodes)@[j].component_id),
        match r {
            Ok(()) => forall|p: Seq<TypeId>|
                #[trigger] forest_lookup(final(nodes)@, p) == if p == ids@.skip(index as int) {
                    None
                } else {
                    forest_lookup(old(nodes)@, p)
                },
            Err(e) => e == Error::RemovingNonExistingArchetype && forest_lookup(
                old(nodes)@,
                ids@.skip(index as int),
            ) is None && forall|p: Seq<TypeId>|
                #[trigger] forest_lookup(final(nodes)@, p) == forest_lookup(old(nodes)@, p),
        },
    decreases ids@.len() - index,
{
    let ghost suffix = ids@.skip(index as int);
    proof {
        assert(suffix[0] == ids@[index as int]);
    }
    let (pos, found) = level_search(nodes, ids[index]);
    let last = index == ids.len() - 1;
    if !found {
        proof {
            lemma_lookup_absent(old(nodes)@, suffix);
        }
        Err(Error::RemovingNonExistingArchetype)
    } else {
        proof {
            assert forall|j: int|
                0 <= j < pos implies (#[trigger] old(nodes)@[j].component_id) != suffix[0] by {
                assert(old(nodes)@[j].component_id.0 < suffix[0].0);
            }
            lemma_lookup_at(old(nodes)@, pos as int, suffix);
        }
        if last {
            if nodes[pos].following_nodes.is_empty() {
                nodes.remove(pos);
                proof {
                    assert(nodes@ =~= old(nodes)@.remove(pos as int));
                    lemma_level_remove_wf(old(nodes)@, nodes@, pos as int);
                    assert forall|p: Seq<TypeId>|
                        #[trigger] forest_lookup(nodes@, p) == if p == suffix {
                            None
                        } else {
                            forest_lookup(old(nodes)@, p)
                        } by {
                        if p.len() == 0 {
                        } else {
                            assert forall|a: int, b: int|
                                0 <= a < b < old(nodes)@.len() implies (
                            #[trigger] old(nodes)@[a].component_id) != (
                            #[trigger] old(nodes)@[b].component_id) by {
                                assert(old(nodes)@[a].component_id.0
                                    < old(nodes)@[b].component_id.0);
                            }
                            lemma_lookup_remove(old(nodes)@, pos as int, p);
                            if p[0] == suffix[0] {
                                if p.len() > 1 {
                                    assert forall|j: int|
                                        0 <= j < pos implies (
                                    #[trigger] old(nodes)@[j].component_id) != p[0] by {
                                        assert(old(nodes)@[j].component_id.0 < suffix[0].0);
                                    }
                                    lemma_lookup_at(old(nodes)@, pos as int, p);
                                    assert(forest_lookup(old(nodes)@, p) == forest_lookup(
                                        old(nodes)@[pos as int].following_nodes@,
                                        p.drop_first(),
                                    ));
                                    assert(forest_lookup(old(nodes)@, p) is None);
                                } else {
                                    assert(p =~= suffix);
                                }
                            } else {
                                assert(p != suffix);
                            }
                        }
                    }
                }
                Ok(())
            } else {
                let mut node = ArchetypeNode::new(TypeId(0));
                core::mem::swap(&mut node, &mut nodes[pos]);
                proof {
                    assert(node == old(nodes)@[pos as int]);
                }
                node.archetype_id = None;
                nodes.set(pos, node);
                proof {
                    assert(nodes@ =~= old(nodes)@.update(pos as int, node));
                    lemma_level_update_wf(old(nodes)@, nodes@, pos as int);
                    assert forall|p: Seq<TypeId>|
                        #[trigger] forest_lookup(nodes@, p) == if p == suffix {
                            None
                        } else {
                            forest_lookup(old(nodes)@, p)
                        } by {
                        lemma_remove_terminal_effect(old(nodes)@, nodes@, pos as int, suffix, p);
                    }
                }
                Ok(())
            }
        } else {
            let mut node = ArchetypeNode::new(TypeId(0));
            core::mem::swap(&mut node, &mut nodes[pos]);
            proof {
                assert(node == old(nodes)@[pos as int]);
                assert(forest_wf(node.following_nodes@));
            }
            let r = remove_rec(&mut node.following_nodes, ids, index + 1);
            nodes.set(pos, node);
            proof {
                assert(nodes@ =~= old(nodes)@.update(pos as int, node));
                let prev_node = old(nodes)@[pos as int];
                assert(suffix.drop_first() =~= ids@.skip(index as int + 1));
                assert forall|j: int|
                    0 <= j < node.following_nodes@.len() implies (
                #[trigger] node.following_nodes@[j]).component_id.0 > node.component_id.0 by {
                    let k = choose|k: int|
                        0 <= k < prev_node.following_nodes@.len() && (
                        #[trigger] prev_node.following_nodes@[k].component_id)
                            == node.following_nodes@[j].component_id;
                    assert(prev_node.following_nodes@[k].component_id.0
                        > prev_node.component_id.0);
                }
                lemma_level_update_wf(old(nodes)@, nodes@, pos as int);
                if r is Ok {
                    assert forall|p: Seq<TypeId>|
                        #[trigger] forest_lookup(nodes@, p) == if p == suffix {
                            None
                        } else {
                            forest_lookup(old(nodes)@, p)
                        } by {
                        lemma_remove_descend_effect(old(nodes)@, nodes@, pos as int, suffix, p);
                    }
                } else {
                    assert(forest_lookup(old(nodes)@, suffix) is None);
                    assert forall|p: Seq<TypeId>|
                        #[trigger] forest_lookup(nodes@, p) == forest_lookup(old(nodes)@, p) by {
                        lemma_same_shape_effect(old(nodes)@, nodes@, pos as int, p);
                    }
                }
            }
            r
        }
    }
}

/// Removing a level node keeps the level well formed.
proof fn lemma_level_remove_wf(prev: Seq<ArchetypeNode>, cur: Seq<ArchetypeNode>, pos: int)
    requires
        forest_wf(prev),
        0 <= pos < prev.len(),
        cur == prev.remove(pos),
    ensures
        forest_wf(cur),
{
    assert forall|i: int| 0 <= i < cur.len() implies forest_wf(
        (#[trigger] cur[i]).following_nodes@,
    ) by {
        if i < pos {
            assert(cur[i] == prev[i]);
        } else {
            assert(cur[i] == prev[i + 1]);
        }
    }
    assert forall|i: int, j: int|
        0 <= i < cur.len() && 0 <= j < cur[i].following_nodes@.len() implies (
    #[trigger] cur[i].following_nodes@[j]).component_id.0 > cur[i].component_id.0 by {
        if i < pos {
            assert(cur[i] == prev[i]);
        } else {
            assert(cur[i] == prev[i + 1]);
        }
    }
    assert forall|a: int, b: int| 0 <= a < b < cur.len() implies (
    #[trigger] cur[a].component_id).0 < (#[trigger] cur[b].component_id).0 by {
        let pa: int = if a < pos {
            a
        } else {
            a + 1
        };
        let pb: int = if b < pos {
            b
        } else {
            b + 1
        };
        assert(cur[a] == prev[pa]);
        assert(cur[b] == prev[pb]);
        assert(prev[pa].component_id.0 < prev[pb].component_id.0);
    }
}

/// Clearing a level node's terminal marker unmaps exactly its own
/// one-step path.
proof fn lemma_remove_terminal_effect(
    prev: Seq<ArchetypeNode>,
    cur: Seq<ArchetypeNode>,
    pos: int,
    suffix: Seq<TypeId>,
    p: Seq<TypeId>,
)
    requires
        forest_wf(prev),
        0 <= pos < prev.len(),
        cur == prev.update(pos, cur[pos]),
        suffix.len() == 1,
        prev[pos].component_id == suffix[0],
        cur[pos].component_id == suffix[0],
        cur[pos].archetype_id is None,
        cur[pos].following_nodes == prev[pos].following_nodes,
    ensures
        forest_lookup(cur, p) == if p == suffix {
            None
        } else {
            forest_lookup(prev, p)
        },
{
    if p.len() == 0 {
        assert(p != suffix);
    } else if p[0] == suffix[0] {
        assert forall|j: int| 0 <= j < pos implies (#[trigger] cur[j].component_id) != p[0] by {
            assert(cur[j] == prev[j]);
            assert(prev[j].component_id.0 < prev[pos].component_id.0);
        }
        assert forall|j: int| 0 <= j < pos implies (#[trigger] prev[j].component_id) != p[0] by {
            assert(prev[j].component_id.0 < prev[pos].component_id.0);
        }
        lemma_lookup_at(cur, pos, p);
        lemma_lookup_at(prev, pos, p);
        if p.len() == 1 {
            assert(p =~= suffix);
        } else {
            assert(p != suffix);
        }
    } else {
        assert(p != suffix);
        assert forall|j: int|
            0 <= j < prev.len() implies (#[trigger] prev[j].component_id) == cur[j].component_id
                && (prev[j].component_id == p[0] ==> prev[j] == cur[j]) by {
            if j != pos {
                assert(cur[j] == prev[j]);
            }
        }
        lemma_lookup_frame(prev, cur, p);
    }
}

/// Replacing a level node's children with a child forest that unmaps one
/// suffix carries the removal one level up.
proof fn lemma_remove_descend_effect(
    prev: Seq<ArchetypeNode>,
    cur: Seq<ArchetypeNode>,
    pos: int,
    suffix: Seq<TypeId>,
    p: Seq<TypeId>,
)
    requires
        forest_wf(prev),
        0 <= pos < prev.len(),
        cur == prev.update(pos, cur[pos]),
        suffix.len() >= 2,
        prev[pos].component_id == suffix[0],
        cur[pos].component_id == suffix[0],
        cur[pos].archetype_id == prev[pos].archetype_id,
        forall|q: Seq<TypeId>|
            #[trigger] forest_lookup(cur[pos].following_nodes@, q) == if q == suffix.drop_first() {
                None
            } else {
                forest_lookup(prev[pos].following_nodes@, q)
            },
    ensures
        forest_lookup(cur, p) == if p == suffix {
            None
        } else {
            forest_lookup(prev, p)
        },
{
    if p.len() == 0 {
        assert(p != suffix);
    } else if p[0] == suffix[0] {
        assert forall|j: int| 0 <= j < pos implies (#[trigger] cur[j].component_id) != p[0] by {
            assert(cur[j] == prev[j]);
            assert(prev[j].component_id.0 < prev[pos].component_id.0);
        }
        assert forall|j: int| 0 <= j < pos implies (#[trigger] prev[j].component_id) != p[0] by {
            assert(prev[j].component_id.0 < prev[pos].component_id.0);
        }
        lemma_lookup_at(cur, pos, p);
        lemma_lookup_at(prev, pos, p);
        if p.len() == 1 {
            assert(p != suffix);
        } else {
            if p.drop_first() == suffix.drop_first() {
                lemma_seq_head_tail_eq(p, suffix);
            } else {
                assert(p != suffix);
            }
        }
    } else {
        assert(p != suffix);
        assert forall|j: int|
            0 <= j < prev.len() implies (#[trigger] prev[j].component_id) == cur[j].component_id
                && (prev[j].component_id == p[0] ==> prev[j] == cur[j]) by {
            if j != pos {
                assert(cur[j] == prev[j]);
            }
        }
        lemma_lookup_frame(prev, cur, p);
    }
}

/// Two non-empty sequences with equal heads and equal tails are equal.
proof fn lemma_seq_head_tail_eq(p: Seq<TypeId>, q: Seq<TypeId>)
    requires
        p.len() >= 1,
        q.len() >= 1,
        p[0] == q[0],
        p.drop_first() == q.drop_first(),
    ensures
        p == q,
{
    assert(p.len() == q.len()) by {
        assert(p.drop_first().len() == p.len() - 1);
        assert(q.drop_first().len() == q.len() - 1);
    }
    assert forall|i: int| 0 <= i < p.len() implies p[i] == q[i] by {
        if i > 0 {
            assert(p.drop_first()[i - 1] == p[i]);
            assert(q.drop_first()[i - 1] == q[i]);
            assert(p.drop_first()[i - 1] == q.drop_first()[i - 1]);
        }
    }
    assert(p =~= q);
}

/// Updating one node of a sorted level, keeping its identifier and its
/// children's bounds, keeps the level well formed.
proof fn lemma_level_update_wf(prev: Seq<ArchetypeNode>, cur: Seq<ArchetypeNode>, pos: int)
    requires
        forest_wf(prev),
        0 <= pos < prev.len(),
        cur == prev.update(pos, cur[pos]),
        cur[pos].component_id == prev[pos].component_id,
        forest_wf(cur[pos].following_nodes@),
        forall|j: int|
            0 <= j < cur[pos].following_nodes@.len() ==> (
            #[trigger] cur[pos].following_nodes@[j]).component_id.0 > cur[pos].component_id.0,
    ensures
        forest_wf(cur),
{
    assert forall|i: int| 0 <= i < cur.len() implies forest_wf(
        (#[trigger] cur[i]).following_nodes@,
    ) by {
        if i != pos {
            assert(cur[i] == prev[i]);
        }
    }
    assert forall|i: int, j: int|
        0 <= i < cur.len() && 0 <= j < cur[i].following_nodes@.len() implies (
    #[trigger] cur[i].following_nodes@[j]).component_id.0 > cur[i].component_id.0 by {
        if i != pos {
            assert(cur[i] == prev[i]);
        }
    }
    assert forall|a: int, b: int| 0 <= a < b < cur.len() implies (
    #[trigger] cur[a].component_id).0 < (#[trigger] cur[b].component_id).0 by {
        assert(cur[a].component_id == prev[a].component_id);
        assert(cur[b].component_id == prev[b].component_id);
    }
}

/// Inserting a fresh node at its sorted position keeps the level well
/// formed.
proof fn lemma_level_insert_wf(
    prev: Seq<ArchetypeNode>,
    cur: Seq<ArchetypeNode>,
    pos: int,
    n: ArchetypeNode,
    ids: Seq<TypeId>,
    index: int,
)
    requires
        forest_wf(prev),
        strictly_sorted(ids),
        0 <= index < ids.len(),
        0 <= pos <= prev.len(),
        cur == prev.insert(pos, n),
        n.component_id == ids[index],
        forest_wf(n.following_nodes@),
        forall|j: int| 0 <= j < pos ==> (#[trigger] prev[j].component_id).0 < n.component_id.0,
        forall|j: int|
            pos <= j < prev.len() ==> n.component_id.0 < (#[trigger] prev[j].component_id).0,
        forall|j: int|
            0 <= j < n.following_nodes@.len() ==> index + 1 < ids.len() && (
            #[trigger] n.following_nodes@[j]).component_id == ids[index + 1],
    ensures
        forest_wf(cur),
{
    assert forall|i: int| 0 <= i < cur.len() implies forest_wf(
        (#[trigger] cur[i]).following_nodes@,
    ) by {
        if i < pos {
            assert(cur[i] == prev[i]);
        } else if i > pos {
            assert(cur[i] == prev[i - 1]);
        }
    }
    assert forall|i: int, j: int|
        0 <= i < cur.len() && 0 <= j < cur[i].following_nodes@.len() implies (
    #[trigger] cur[i].following_nodes@[j]).component_id.0 > cur[i].component_id.0 by {
        if i < pos {
            assert(cur[i] == prev[i]);
        } else if i > pos {
            assert(cur[i] == prev[i - 1]);
        } else {
            assert(cur[i] == n);
            assert(n.following_nodes@[j].component_id == ids[index + 1]);
            assert(ids[index].0 < ids[index + 1].0);
        }
    }
    assert forall|a: int, b: int| 0 <= a < b < cur.len() implies (
    #[trigger] cur[a].component_id).0 < (#[trigger] cur[b].component_id).0 by {
        if a != pos {
            let pa: int = if a < pos {
                a
            } else {
                a - 1
            };
            assert(cur[a] == prev[pa]);
        }
        if b != pos {
            let pb: int = if b < pos {
                b
            } else {
                b - 1
            };
            assert(cur[b] == prev[pb]);
        }
        if a != pos && b != pos {
            let pa: int = if a < pos {
                a
            } else {
                a - 1
            };
            let pb: int = if b < pos {
                b
            } else {
                b - 1
            };
            assert(prev[pa].component_id.0 < prev[pb].component_id.0);
        }
    }
}

/// Marking a level node terminal maps exactly its own one-step path.
proof fn lemma_insert_terminal_effect(
    prev: Seq<ArchetypeNode>,
    cur: Seq<ArchetypeNode>,
    pos: int,
    suffix: Seq<TypeId>,
    p: Seq<TypeId>,
)
    requires
        forest_wf(prev),
        0 <= pos < prev.len(),
        cur == prev.update(pos, cur[pos]),
        suffix.len() == 1,
        prev[pos].component_id == suffix[0],
        cur[pos].component_id == suffix[0],
        cur[pos].archetype_id is Some,
        cur[pos].following_nodes == prev[pos].following_nodes,
    ensures
        forest_lookup(cur, p) == if p == suffix {
            cur[pos].archetype_id
        } else {
            forest_lookup(prev, p)
        },
{
    if p.len() == 0 {
        assert(p != suffix);
    } else if p[0] == suffix[0] {
        assert forall|j: int| 0 <= j < pos implies (#[trigger] cur[j].component_id) != p[0] by {
            assert(cur[j] == prev[j]);
            assert(prev[j].component_id.0 < prev[pos].component_id.0);
        }
        assert forall|j: int| 0 <= j < pos implies (#[trigger] prev[j].component_id) != p[0] by {
            assert(prev[j].component_id.0 < prev[pos].component_id.0);
        }
        lemma_lookup_at(cur, pos, p);
        lemma_lookup_at(prev, pos, p);
        if p.len() == 1 {
            assert(p =~= suffix);
        } else {
            assert(p != suffix);
        }
    } else {
        assert(p != suffix);
        assert forall|j: int|
            0 <= j < prev.len() implies (#[trigger] prev[j].component_id) == cur[j].component_id
                && (prev[j].component_id == p[0] ==> prev[j] == cur[j]) by {
            if j != pos {
                assert(cur[j] == prev[j]);
            }
        }
        lemma_lookup_frame(prev, cur, p);
    }
}

/// Replacing a level node's children with an updated child forest carries
/// the child mapping change one level up.
proof fn lemma_insert_descend_effect(
    prev: Seq<ArchetypeNode>,
    cur: Seq<ArchetypeNode>,
    pos: int,
    suffix: Seq<TypeId>,
    aid: ArchetypeId,
    p: Seq<TypeId>,
)
    requires
        forest_wf(prev),
        0 <= pos < prev.len(),
        cur == prev.update(pos, cur[pos]),
        suffix.len() >= 2,
        prev[pos].component_id == suffix[0],
        cur[pos].component_id == suffix[0],
        cur[pos].archetype_id == prev[pos].archetype_id,
        forall|q: Seq<TypeId>|
            #[trigger] forest_lookup(cur[pos].following_nodes@, q) == if q == suffix.drop_first() {
                Some(aid)
            } else {
                forest_lookup(prev[pos].following_nodes@, q)
            },
    ensures
        forest_lookup(cur, p) == if p == suffix {
            Some(aid)
        } else {
            forest_lookup(prev, p)
        },
{
    if p.len() == 0 {
        assert(p != suffix);
    } else if p[0] == suffix[0] {
        assert forall|j: int| 0 <= j < pos implies (#[trigger] cur[j].component_id) != p[0] by {
            assert(cur[j] == prev[j]);
            assert(prev[j].component_id.0 < prev[pos].component_id.0);
        }
        assert forall|j: int| 0 <= j < pos implies (#[trigger] prev[j].component_id) != p[0] by {
            assert(prev[j].component_id.0 < prev[pos].component_id.0);
        }
        lemma_lookup_at(cur, pos, p);
        lemma_lookup_at(prev, pos, p);
        if p.len() == 1 {
            assert(p != suffix);
        } else {
            if p.drop_first() == suffix.drop_first() {
                lemma_seq_head_tail_eq(p, suffix);
                assert(forest_lookup(cur, p) == Some(aid));
            } else {
                assert(p != suffix);
            }
        }
    } else {
        assert(p != suffix);
        assert forall|j: int|
            0 <= j < prev.len() implies (#[trigger] prev[j].component_id) == cur[j].component_id
                && (prev[j].component_id == p[0] ==> prev[j] == cur[j]) by {
            if j != pos {
                assert(cur[j] == prev[j]);
            }
        }
        lemma_lookup_frame(prev, cur, p);
    }
}

/// Replacing a level node by one that serves every path alike leaves the
/// whole level's mapping alone.
proof fn lemma_same_shape_effect(
    prev: Seq<ArchetypeNode>,
    cur: Seq<ArchetypeNode>,
    pos: int,
    p: Seq<TypeId>,
)
    requires
        forest_wf(prev),
        0 <= pos < prev.len(),
        cur == prev.update(pos, cur[pos]),
        cur[pos].component_id == prev[pos].component_id,
        cur[pos].archetype_id == prev[pos].archetype_id,
        forall|q: Seq<TypeId>|
            #[trigger] forest_lookup(cur[pos].following_nodes@, q) == forest_lookup(
                prev[pos].following_nodes@,
                q,
            ),
    ensures
        forest_lookup(cur, p) == forest_lookup(prev, p),
{
    if p.len() == 0 {
    } else if p[0] == prev[pos].component_id {
        assert forall|j: int| 0 <= j < pos implies (#[trigger] cur[j].component_id) != p[0] by {
            assert(cur[j] == prev[j]);
            assert(prev[j].component_id.0 < prev[pos].component_id.0);
        }
        assert forall|j: int| 0 <= j < pos implies (#[trigger] prev[j].component_id) != p[0] by {
            assert(prev[j].component_id.0 < prev[pos].component_id.0);
        }
        lemma_lookup_at(cur, pos, p);
        lemma_lookup_at(prev, pos, p);
    } else {
        assert forall|j: int|
            0 <= j < prev.len() implies (#[trigger] prev[j].component_id) == cur[j].component_id
                && (prev[j].component_id == p[0] ==> prev[j] == cur[j]) by {
            if j != pos {
                assert(cur[j] == prev[j]);
            }
        }
        lemma_lookup_frame(prev, cur, p);
    }
}

/// The identifiers a subset query emits from a forest: left to right,
/// each node compared with the query identifier its depth asks for.
pub open spec fn forest_query(nodes: Seq<ArchetypeNode>, s: Seq<TypeId>, d: int) -> Seq<
    ArchetypeId,
>
    recommends
        0 <= d < s.len(),
    decreases nodes,
{
    if nodes.len() == 0 {
        Seq::empty()
    } else {
        node_query(nodes[0], s, d) + forest_query(nodes.drop_first(), s, d)
    }
}

/// What one node contributes to a subset query: nothing where its
/// identifier overshoots the queried one; its descendants where it
/// undershoots; once the last queried identifier matches, itself and
/// every terminal below.
pub open spec fn node_query(n: ArchetypeNode, s: Seq<TypeId>, d: int) -> Seq<ArchetypeId>
    recommends
        0 <= d < s.len(),
    decreases n,
{
    if n.component_id.0 > s[d].0 {
        Seq::empty()
    } else if n.component_id.0 < s[d].0 {
        forest_query(n.following_nodes@, s, d)
    } else if d == s.len() - 1 {
        (match n.archetype_id {
            Some(a) => seq![a],
            None => Seq::<ArchetypeId>::empty(),
        }) + forest_all(n.following_nodes@)
    } else {
        forest_query(n.following_nodes@, s, d + 1)
    }
}

/// Every terminal identifier in a forest, left to right, parents first.
pub open spec fn forest_all(nodes: Seq<ArchetypeNode>) -> Seq<ArchetypeId>
    decreases nodes,
{
    if nodes.len() == 0 {
        Seq::empty()
    } else {
        node_all(nodes[0]) + forest_all(nodes.drop_first())
    }
}

/// Every terminal identifier at or below one node.
pub open spec fn node_all(n: ArchetypeNode) -> Seq<ArchetypeId>
    decreases n,
{
    (match n.archetype_id {
        Some(a) => seq![a],
        None => Seq::<ArchetypeId>::empty(),
    }) + forest_all(n.following_nodes@)
}

/// Collects every terminal identifier at or below the given nodes.
fn collect_all(nodes: &Vec<ArchetypeNode>) -> (r: Vec<ArchetypeId>)
    ensures
        r@ == forest_all(nodes@),
    decreases nodes@,
{
    let mut r: Vec<ArchetypeId> = Vec::new();
    proof {
        assert(nodes@.skip(0) =~= nodes@);
        assert(r@ + forest_all(nodes@) =~= forest_all(nodes@));
    }
    let mut j: usize = 0;
    while j < nodes.len()
        invariant
            j <= nodes@.len(),
            r@ + forest_all(nodes@.skip(j as int)) == forest_all(nodes@),
        decreases nodes@.len() - j,
    {
        let ghost r0 = r@;
        proof {
            assert(nodes@.skip(j as int)[0] == nodes@[j as int]);
            assert(nodes@.skip(j as int).drop_first() =~= nodes@.skip(j as int + 1));
            assert(forest_all(nodes@.skip(j as int)) == node_all(nodes@[j as int]) + forest_all(
                nodes@.skip(j as int + 1),
            ));
        }
        match nodes[j].archetype_id {
            Some(a) => {
                r.push(a);
            },
            None => {},
        }
        let mut sub = collect_all(&nodes[j].following_nodes);
        r.append(&mut sub);
        proof {
            assert(r@ =~= r0 + node_all(nodes@[j as int]));
            assert(r@ + forest_all(nodes@.skip(j as int + 1)) =~= forest_all(nodes@));
        }
        j = j + 1;
    }
    proof {
        assert(nodes@.skip(nodes@.len() as int) =~= Seq::<ArchetypeNode>::empty());
        assert(r@ =~= forest_all(nodes@));
    }
    r
}

/// Runs a subset query over a forest.
fn query_forest(nodes: &Vec<ArchetypeNode>, s: &Vec<TypeId>, d: usize) -> (r: Vec<ArchetypeId>)
    requires
        d < s@.len(),
    ensures
        r@ == forest_query(nodes@, s@, d as int),
    decreases nodes@, 1int,
{
    let mut r: Vec<ArchetypeId> = Vec::new();
    proof {
        assert(nodes@.skip(0) =~= nodes@);
        assert(r@ + forest_query(nodes@, s@, d as int) =~= forest_query(nodes@, s@, d as int));
    }
    let mut j: usize = 0;
    while j < nodes.len()
        invariant
            d < s@.len(),
            j <= nodes@.len(),
            r@ + forest_query(nodes@.skip(j as int), s@, d as int) == forest_query(
                nodes@,
                s@,
                d as int,
            ),
        decreases nodes@.len() - j,
    {
        let ghost r0 = r@;
        proof {
            assert(nodes@.skip(j as int)[0] == nodes@[j as int]);
            assert(nodes@.skip(j as int).drop_first() =~= nodes@.skip(j as int + 1));
            assert(forest_query(nodes@.skip(j as int), s@, d as int) == node_query(
                nodes@[j as int],
                s@,
                d as int,
            ) + forest_query(nodes@.skip(j as int + 1), s@, d as int));
        }
        let mut sub = query_node(&nodes[j], s, d);
        r.append(&mut sub);
        proof {
            assert(r@ =~= r0 + node_query(nodes@[j as int], s@, d as int));
            assert(r@ + forest_query(nodes@.skip(j as int + 1), s@, d as int) =~= forest_query(
                nodes@,
                s@,
                d as int,
            ));
        }
        j = j + 1;
    }
    proof {
        assert(nodes@.skip(nodes@.len() as int) =~= Seq::<ArchetypeNode>::empty());
        assert(r@ =~= forest_query(nodes@, s@, d as int));
    }
    r
}

/// Runs a subset query at one node.
fn query_node(n: &ArchetypeNode, s: &Vec<TypeId>, d: usize) -> (r: Vec<ArchetypeId>)
    requires
        d < s@.len(),
    ensures
        r@ == node_query(*n, s@, d as int),
    decreases *n, 0int,
{
    if n.component_id.0 > s[d].0 {
        Vec::new()
    } else if n.component_id.0 < s[d].0 {
        query_forest(&n.following_nodes, s, d)
    } else if d == s.len() - 1 {
        let mut r: Vec<ArchetypeId> = Vec::new();
        match n.archetype_id {
            Some(a) => {
                r.push(a);
            },
            None => {},
        }
        let mut sub = collect_all(&n.following_nodes);
        r.append(&mut sub);
        proof {
            assert(r@ =~= node_query(*n, s@, d as int));
        }
        r
    } else {
        query_forest(&n.following_nodes, s, d + 1)
    }
}

/// Whether a path carries every identifier of a query sequence.
pub open spec fn seq_subset(s: Seq<TypeId>, p: Seq<TypeId>) -> bool {
    forall|i: int| 0 <= i < s.len() ==> p.contains(#[trigger] s[i])
}

/// Membership in a concatenation is membership in either part.
proof fn lemma_concat_contains(a: Seq<ArchetypeId>, b: Seq<ArchetypeId>, x: ArchetypeId)
    ensures
        (a + b).contains(x) <==> a.contains(x) || b.contains(x),
{
    if a.contains(x) {
        let i = choose|i: int| 0 <= i < a.len() && a[i] == x;
        assert((a + b)[i] == x);
    }
    if b.contains(x) {
        let i = choose|i: int| 0 <= i < b.len() && b[i] == x;
        assert((a + b)[a.len() + i] == x);
    }
    if (a + b).contains(x) {
        let i = choose|i: int| 0 <= i < (a + b).len() && (a + b)[i] == x;
        if i < a.len() {
            assert(a[i] == x);
        } else {
            assert(b[i - a.len()] == x);
        }
    }
}

/// A path a well-formed forest maps somewhere starts at a level
/// identifier and climbs strictly.
proof fn lemma_lookup_elements(nodes: Seq<ArchetypeNode>, p: Seq<TypeId>)
    requires
        forest_wf(nodes),
        forest_lookup(nodes, p) is Some,
    ensures
        p.len() >= 1,
        exists|i: int| 0 <= i < nodes.len() && (#[trigger] nodes[i].component_id) == p[0],
        strictly_sorted(p),
    decreases nodes,
{
    assert(p.len() >= 1 && nodes.len() >= 1);
    if nodes[0].component_id == p[0] {
        if p.len() == 1 {
            assert(strictly_sorted(p));
        } else {
            lemma_lookup_elements(nodes[0].following_nodes@, p.drop_first());
            let q = p.drop_first();
            let w = choose|i: int|
                0 <= i < nodes[0].following_nodes@.len() && (
                #[trigger] nodes[0].following_nodes@[i].component_id) == q[0];
            assert(q[0].0 > p[0].0);
            assert forall|i: int, j: int| 0 <= i < j < p.len() implies p[i].0 < p[j].0 by {
                if i == 0 {
                    if j == 1 {
                        assert(p[1] == q[0]);
                    } else {
                        assert(q[0].0 < q[j - 1].0);
                        assert(p[j] == q[j - 1]);
                    }
                } else {
                    assert(q[i - 1].0 < q[j - 1].0);
                    assert(p[i] == q[i - 1]);
                    assert(p[j] == q[j - 1]);
                }
            }
        }
    } else {
        lemma_lookup_elements(nodes.drop_first(), p);
        let w = choose|i: int|
            0 <= i < nodes.drop_first().len() && (
            #[trigger] nodes.drop_first()[i].component_id) == p[0];
        assert(nodes[w + 1].component_id == p[0]);
    }
}

/// A forest's terminal identifiers are exactly what some path maps to.
proof fn lemma_all_characterize(nodes: Seq<ArchetypeNode>, aid: ArchetypeId)
    requires
        forest_wf(nodes),
    ensures
        forest_all(nodes).contains(aid) <==> exists|p: Seq<TypeId>|
            #[trigger] forest_lookup(nodes, p) == Some(aid),
    decreases nodes,
{
    if nodes.len() == 0 {
        assert(!forest_all(nodes).contains(aid));
        if exists|p: Seq<TypeId>| #[trigger] forest_lookup(nodes, p) == Some(aid) {
            let p = choose|p: Seq<TypeId>| #[trigger] forest_lookup(nodes, p) == Some(aid);
            assert(false);
        }
    } else {
        let n = nodes[0];
        let rest = nodes.drop_first();
        lemma_all_characterize(n.following_nodes@, aid);
        lemma_all_characterize(rest, aid);
        let own: Seq<ArchetypeId> = match n.archetype_id {
            Some(a) => seq![a],
            None => Seq::<ArchetypeId>::empty(),
        };
        lemma_concat_contains(own, forest_all(n.following_nodes@), aid);
        lemma_concat_contains(node_all(n), forest_all(rest), aid);
        if forest_all(nodes).contains(aid) {
            if own.contains(aid) {
                let p = seq![n.component_id];
                assert(forest_lookup(nodes, p) == Some(aid));
            } else if forest_all(n.following_nodes@).contains(aid) {
                let q = choose|q: Seq<TypeId>|
                    #[trigger] forest_lookup(n.following_nodes@, q) == Some(aid);
                let p = seq![n.component_id] + q;
                lemma_lookup_elements(n.following_nodes@, q);
                assert(p.drop_first() =~= q);
                assert(p[0] == n.component_id);
                assert(forest_lookup(nodes, p) == Some(aid));
            } else {
                let q = choose|q: Seq<TypeId>| #[trigger] forest_lookup(rest, q) == Some(aid);
                lemma_lookup_elements(rest, q);
                let w = choose|i: int|
                    0 <= i < rest.len() && (#[trigger] rest[i].component_id) == q[0];
                assert(rest[w] == nodes[w + 1]);
                assert(nodes[0].component_id.0 < nodes[w + 1].component_id.0);
                assert(forest_lookup(nodes, q) == forest_lookup(rest, q));
            }
        }
        if exists|p: Seq<TypeId>| #[trigger] forest_lookup(nodes, p) == Some(aid) {
            let p = choose|p: Seq<TypeId>| #[trigger] forest_lookup(nodes, p) == Some(aid);
            if p[0] == n.component_id {
                if p.len() == 1 {
                    assert(own.contains(aid)) by {
                        assert(own[0] == aid);
                    }
                } else {
                    assert(forest_lookup(n.following_nodes@, p.drop_first()) == Some(aid));
                }
            } else {
                assert(forest_lookup(rest, p) == Some(aid));
            }
            assert(forest_all(nodes).contains(aid));
        }
    }
}

/// What a subset query emits from a forest: exactly the identifiers of
/// the stored paths that carry every queried identifier from depth `d`
/// on.
proof fn lemma_query_characterize(
    nodes: Seq<ArchetypeNode>,
    s: Seq<TypeId>,
    d: int,
    aid: ArchetypeId,
)
    requires
        forest_wf(nodes),
        strictly_sorted(s),
        0 <= d < s.len(),
    ensures
        forest_query(nodes, s, d).contains(aid) <==> exists|p: Seq<TypeId>|
            #[trigger] forest_lookup(nodes, p) == Some(aid) && seq_subset(s.skip(d), p),
    decreases nodes, 1int,
{
    if nodes.len() == 0 {
        if exists|p: Seq<TypeId>|
            #[trigger] forest_lookup(nodes, p) == Some(aid) && seq_subset(s.skip(d), p) {
            let p = choose|p: Seq<TypeId>|
                #[trigger] forest_lookup(nodes, p) == Some(aid) && seq_subset(s.skip(d), p);
            assert(false);
        }
    } else {
        let n = nodes[0];
        let rest = nodes.drop_first();
        lemma_node_query_characterize(n, s, d, aid);
        lemma_query_characterize(rest, s, d, aid);
        lemma_concat_contains(node_query(n, s, d), forest_query(rest, s, d), aid);
        if forest_query(nodes, s, d).contains(aid) {
            if node_query(n, s, d).contains(aid) {
                let p = choose|p: Seq<TypeId>|
                    #[trigger] forest_lookup(seq![n], p) == Some(aid) && seq_subset(s.skip(d), p);
                assert(forest_wf(seq![n])) by {
                    assert(seq![n][0] == n);
                }
                lemma_lookup_elements(seq![n], p);
                let w0 = choose|i: int|
                    0 <= i < seq![n].len() && (#[trigger] seq![n][i].component_id) == p[0];
                assert(p.len() >= 1 && p[0] == n.component_id);
                assert(forest_lookup(nodes, p) == Some(aid));
            } else {
                let q = choose|q: Seq<TypeId>|
                    #[trigger] forest_lookup(rest, q) == Some(aid) && seq_subset(s.skip(d), q);
                lemma_lookup_elements(rest, q);
                let w = choose|i: int|
                    0 <= i < rest.len() && (#[trigger] rest[i].component_id) == q[0];
                assert(rest[w] == nodes[w + 1]);
                assert(nodes[0].component_id.0 < nodes[w + 1].component_id.0);
                assert(forest_lookup(nodes, q) == forest_lookup(rest, q));
            }
        }
        if exists|p: Seq<TypeId>|
            #[trigger] forest_lookup(nodes, p) == Some(aid) && seq_subset(s.skip(d), p) {
            let p = choose|p: Seq<TypeId>|
                #[trigger] forest_lookup(nodes, p) == Some(aid) && seq_subset(s.skip(d), p);
            if p[0] == n.component_id {
                assert(forest_lookup(seq![n], p) == Some(aid));
                assert(node_query(n, s, d).contains(aid));
            } else {
                assert(forest_lookup(rest, p) == Some(aid));
                assert(forest_query(rest, s, d).contains(aid));
            }
            assert(forest_query(nodes, s, d).contains(aid));
        }
    }
}

/// What a subset query emits at one node.
proof fn lemma_node_query_characterize(n: ArchetypeNode, s: Seq<TypeId>, d: int, aid: ArchetypeId)
    requires
        forest_wf(n.following_nodes@),
        forall|j: int|
            0 <= j < n.following_nodes@.len() ==> (
            #[trigger] n.following_nodes@[j].component_id).0 > n.component_id.0,
        strictly_sorted(s),
        0 <= d < s.len(),
    ensures
        node_query(n, s, d).contains(aid) <==> exists|p: Seq<TypeId>|
            #[trigger] forest_lookup(seq![n], p) == Some(aid) && seq_subset(s.skip(d), p),
    decreases n, 0int,
{
    let children = n.following_nodes@;
    assert(forest_wf(seq![n])) by {
        assert(seq![n][0] == n);
    }
    if n.component_id.0 > s[d].0 {
        if exists|p: Seq<TypeId>|
            #[trigger] forest_lookup(seq![n], p) == Some(aid) && seq_subset(s.skip(d), p) {
            let p = choose|p: Seq<TypeId>|
                #[trigger] forest_lookup(seq![n], p) == Some(aid) && seq_subset(s.skip(d), p);
            lemma_lookup_elements(seq![n], p);
            assert(p[0] == n.component_id);
            assert(p.contains(s.skip(d)[0]));
            assert(s.skip(d)[0] == s[d]);
            let i = choose|i: int| 0 <= i < p.len() && p[i] == s[d];
            if i > 0 {
                assert(p[0].0 < p[i].0);
            }
            assert(false);
        }
    } else if n.component_id.0 < s[d].0 {
        lemma_query_characterize(children, s, d, aid);
        if forest_query(children, s, d).contains(aid) {
            let q = choose|q: Seq<TypeId>|
                #[trigger] forest_lookup(children, q) == Some(aid) && seq_subset(s.skip(d), q);
            let p = seq![n.component_id] + q;
            lemma_lookup_elements(children, q);
            assert(p.drop_first() =~= q);
            assert(p[0] == n.component_id);
            assert(forest_lookup(seq![n], p) == Some(aid));
            assert(seq_subset(s.skip(d), p)) by {
                assert forall|i: int| 0 <= i < s.skip(d).len() implies p.contains(
                    #[trigger] s.skip(d)[i],
                ) by {
                    assert(q.contains(s.skip(d)[i]));
                    let w = choose|w: int| 0 <= w < q.len() && q[w] == s.skip(d)[i];
                    assert(p[w + 1] == q[w]);
                }
            }
        }
        if exists|p: Seq<TypeId>|
            #[trigger] forest_lookup(seq![n], p) == Some(aid) && seq_subset(s.skip(d), p) {
            let p = choose|p: Seq<TypeId>|
                #[trigger] forest_lookup(seq![n], p) == Some(aid) && seq_subset(s.skip(d), p);
            lemma_lookup_elements(seq![n], p);
            assert(p[0] == n.component_id);
            assert(p.contains(s.skip(d)[0]));
            assert(s.skip(d)[0] == s[d]);
            let i = choose|i: int| 0 <= i < p.len() && p[i] == s[d];
            assert(i > 0);
            assert(p.len() >= 2);
            let q = p.drop_first();
            assert(forest_lookup(children, q) == Some(aid));
            assert(seq_subset(s.skip(d), q)) by {
                assert forall|m: int| 0 <= m < s.skip(d).len() implies q.contains(
                    #[trigger] s.skip(d)[m],
                ) by {
                    assert(p.contains(s.skip(d)[m]));
                    let w = choose|w: int| 0 <= w < p.len() && p[w] == s.skip(d)[m];
                    assert(s.skip(d)[m] == s[d + m]);
                    if w == 0 {
                        assert(s[d].0 <= s[d + m].0);
                        assert(p[0].0 < s[d].0);
                        assert(false);
                    }
                    assert(q[w - 1] == p[w]);
                }
            }
            assert(forest_query(children, s, d).contains(aid));
        }
    } else if d == s.len() - 1 {
        let own: Seq<ArchetypeId> = match n.archetype_id {
            Some(a) => seq![a],
            None => Seq::<ArchetypeId>::empty(),
        };
        lemma_concat_contains(own, forest_all(children), aid);
        lemma_all_characterize(children, aid);
        assert(s.skip(d).len() == 1);
        if node_query(n, s, d).contains(aid) {
            if own.contains(aid) {
                let p = seq![n.component_id];
                assert(forest_lookup(seq![n], p) == Some(aid));
                assert(seq_subset(s.skip(d), p)) by {
                    assert(s.skip(d)[0] == s[d]);
                    assert(p[0] == s[d]);
                    assert(p.contains(s[d]));
                }
            } else {
                let q = choose|q: Seq<TypeId>| #[trigger] forest_lookup(children, q) == Some(aid);
                let p = seq![n.component_id] + q;
                lemma_lookup_elements(children, q);
                assert(p.drop_first() =~= q);
                assert(p[0] == n.component_id);
                assert(forest_lookup(seq![n], p) == Some(aid));
                assert(seq_subset(s.skip(d), p)) by {
                    assert(s.skip(d)[0] == s[d]);
                    assert(p[0] == s[d]);
                    assert(p.contains(s[d]));
                }
            }
        }
        if exists|p: Seq<TypeId>|
            #[trigger] forest_lookup(seq![n], p) == Some(aid) && seq_subset(s.skip(d), p) {
            let p = choose|p: Seq<TypeId>|
                #[trigger] forest_lookup(seq![n], p) == Some(aid) && seq_subset(s.skip(d), p);
            lemma_lookup_elements(seq![n], p);
            assert(p[0] == n.component_id);
            if p.len() == 1 {
                assert(own.contains(aid)) by {
                    assert(own[0] == aid);
                }
            } else {
                assert(forest_lookup(children, p.drop_first()) == Some(aid));
            }
            assert(node_query(n, s, d).contains(aid));
        }
    } else {
        lemma_query_characterize(children, s, d + 1, aid);
        if forest_query(children, s, d + 1).contains(aid) {
            let q = choose|q: Seq<TypeId>|
                #[trigger] forest_lookup(children, q) == Some(aid) && seq_subset(s.skip(d + 1), q);
            let p = seq![n.component_id] + q;
            lemma_lookup_elements(children, q);
            assert(p.drop_first() =~= q);
            assert(p[0] == n.component_id);
            assert(forest_lookup(seq![n], p) == Some(aid));
            assert(seq_subset(s.skip(d), p)) by {
                assert forall|i: int| 0 <= i < s.skip(d).len() implies p.contains(
                    #[trigger] s.skip(d)[i],
                ) by {
                    if i == 0 {
                        assert(s.skip(d)[0] == s[d]);
                        assert(p[0] == s[d]);
                    } else {
                        assert(s.skip(d)[i] == s.skip(d + 1)[i - 1]);
                        assert(q.contains(s.skip(d + 1)[i - 1]));
                        let w = choose|w: int|
                            0 <= w < q.len() && q[w] == s.skip(d + 1)[i - 1];
                        assert(p[w + 1] == q[w]);
                    }
                }
            }
        }
        if exists|p: Seq<TypeId>|
            #[trigger] forest_lookup(seq![n], p) == Some(aid) && seq_subset(s.skip(d), p) {
            let p = choose|p: Seq<TypeId>|
                #[trigger] forest_lookup(seq![n], p) == Some(aid) && seq_subset(s.skip(d), p);
            lemma_lookup_elements(seq![n], p);
            assert(p[0] == n.component_id);
            assert(p.contains(s.skip(d)[1]));
            assert(s.skip(d)[1] == s[d + 1]);
            let i = choose|i: int| 0 <= i < p.len() && p[i] == s[d + 1];
            assert(i > 0) by {
                if i == 0 {
                    assert(p[0] == s[d]);
                    assert(s[d].0 < s[d + 1].0);
                }
            }
            assert(p.len() >= 2);
            let q = p.drop_first();
            assert(forest_lookup(children, q) == Some(aid));
            assert(seq_subset(s.skip(d + 1), q)) by {
                assert forall|m: int| 0 <= m < s.skip(d + 1).len() implies q.contains(
                    #[trigger] s.skip(d + 1)[m],
                ) by {
                    assert(s.skip(d + 1)[m] == s[d + 1 + m]);
                    assert(s.skip(d)[m + 1] == s[d + 1 + m]);
                    assert(p.contains(s.skip(d)[m + 1]));
                    let w = choose|w: int| 0 <= w < p.len() && p[w] == s[d + 1 + m];
                    assert(w > 0) by {
                        if w == 0 {
                            assert(p[0] == s[d]);
                            assert(s[d].0 < s[d + 1 + m].0);
                        }
                    }
                    assert(q[w - 1] == p[w]);
                }
            }
            assert(forest_query(children, s, d + 1).contains(aid));
        }
    }
}

/// The archetype trie: kind sets, as sorted identifier paths, mapped to
/// archetype identifiers.  The empty kind set has a slot of its own.
#[derive(Debug)]
pub struct ArchetypesTrie {
    root_nodes: Vec<ArchetypeNode>,
    empty_id: Option<ArchetypeId>,
}

impl ArchetypesTrie {
    pub closed spec fn nodes_view(self) -> Seq<ArchetypeNode> {
        self.root_nodes@
    }

    pub closed spec fn spec_empty_id(self) -> Option<ArchetypeId> {
        self.empty_id
    }

    pub open spec fn wf(self) -> bool {
        forest_wf(self.nodes_view())
    }

    /// What the trie maps a sorted kind-identifier sequence to.
    pub open spec fn spec_search(self, ids: Seq<TypeId>) -> Option<ArchetypeId> {
        if ids.len() == 0 {
            self.spec_empty_id()
        } else {
            forest_lookup(self.nodes_view(), ids)
        }
    }

    pub fn new() -> (r: ArchetypesTrie)
        ensures
            r.wf(),
            forall|p: Seq<TypeId>| (#[trigger] r.spec_search(p)) is None,
    {
        ArchetypesTrie { root_nodes: Vec::new(), empty_id: None }
    }

    /// Maps a kind set to an archetype identifier.  A non-empty kind set
    /// already mapped is refused; the empty kind set's slot is overwritten.
    pub fn insert(&mut self, archetype: Archetype, archetype_id: ArchetypeId) -> (r: Result<
        (),
        Error,
    >)
        requires
            old(self).wf(),
            archetype.wf(),
        ensures
            final(self).wf(),
            match r {
                Ok(()) => (archetype.ids().len() > 0 ==> old(self).spec_search(archetype.ids())
                    is None) && forall|p: Seq<TypeId>|
                    #[trigger] final(self).spec_search(p) == if p == archetype.ids() {
                        Some(archetype_id)
                    } else {
                        old(self).spec_search(p)
                    },
                Err(e) => e == Error::InsertingArchetypeDuplicate && archetype.ids().len() > 0
                    && old(self).spec_search(archetype.ids()) is Some && forall|p: Seq<TypeId>|
                    #[trigger] final(self).spec_search(p) == old(self).spec_search(p),
            },
    {
        if archetype.components.is_empty() {
            self.empty_id = Some(archetype_id);
            proof {
                assert forall|p: Seq<TypeId>|
                    #[trigger] self.spec_search(p) == if p == archetype.ids() {
                        Some(archetype_id)
                    } else {
                        old(self).spec_search(p)
                    } by {
                    if p.len() == 0 {
                        assert(p =~= archetype.ids());
                    } else {
                        assert(p != archetype.ids());
                    }
                }
            }
            Ok(())
        } else {
            let r = insert_rec(&mut self.root_nodes, &archetype.components, 0, archetype_id);
            proof {
                assert(archetype.ids().skip(0) =~= archetype.ids());
                if r is Ok {
                    assert forall|p: Seq<TypeId>|
                        #[trigger] self.spec_search(p) == if p == archetype.ids() {
                            Some(archetype_id)
                        } else {
                            old(self).spec_search(p)
                        } by {
                        if p.len() == 0 {
                            assert(p != archetype.ids());
                        } else {
                            assert(forest_lookup(self.root_nodes@, p) == if p == archetype.ids() {
                                Some(archetype_id)
                            } else {
                                forest_lookup(old(self).root_nodes@, p)
                            });
                        }
                    }
                } else {
                    assert forall|p: Seq<TypeId>|
                        #[trigger] self.spec_search(p) == old(self).spec_search(p) by {
                        if p.len() > 0 {
                            assert(forest_lookup(self.root_nodes@, p) == forest_lookup(
                                old(self).root_nodes@,
                                p,
                            ));
                        }
                    }
                }
            }
            r
        }
    }

    /// Unmaps a kind set.  The empty kind set is left alone; a non-empty
    /// kind set whose path is missing is refused.
    pub fn remove(&mut self, archetype: Archetype) -> (r: Result<(), Error>)
        requires
            old(self).wf(),
        ensures
            final(self).wf(),
            match r {
                Ok(()) => if archetype.ids().len() == 0 {
                    forall|p: Seq<TypeId>|
                        #[trigger] final(self).spec_search(p) == old(self).spec_search(p)
                } else {
                    forall|p: Seq<TypeId>|
                        #[trigger] final(self).spec_search(p) == if p == archetype.ids() {
                            None
                        } else {
                            old(self).spec_search(p)
                        }
                },
                Err(e) => e == Error::RemovingNonExistingArchetype && archetype.ids().len() > 0
                    && old(self).spec_search(archetype.ids()) is None && forall|p: Seq<TypeId>|
                    #[trigger] final(self).spec_search(p) == old(self).spec_search(p),
            },
    {
        if archetype.components.is_empty() {
            Ok(())
        } else {
            let r = remove_rec(&mut self.root_nodes, &archetype.components, 0);
            proof {
                assert(archetype.ids().skip(0) =~= archetype.ids());
                if r is Ok {
                    assert forall|p: Seq<TypeId>|
                        #[trigger] self.spec_search(p) == if p == archetype.ids() {
                            None
                        } else {
                            old(self).spec_search(p)
                        } by {
                        if p.len() == 0 {
                            assert(p != archetype.ids());
                        } else {
                            assert(forest_lookup(self.root_nodes@, p) == if p == archetype.ids() {
                                None
                            } else {
                                forest_lookup(old(self).root_nodes@, p)
                            });
                        }
                    }
                } else {
                    assert forall|p: Seq<TypeId>|
                        #[trigger] self.spec_search(p) == old(self).spec_search(p) by {
                        if p.len() > 0 {
                            assert(forest_lookup(self.root_nodes@, p) == forest_lookup(
                                old(self).root_nodes@,
                                p,
                            ));
                        }
                    }
                }
            }
            r
        }
    }

    /// Every archetype whose kind set carries all the queried
    /// identifiers.  One identifier may be emitted more than once only
    /// where two kind sets share it.
    pub fn query_ids(&self, components_ids: &Vec<TypeId>) -> (r: Vec<ArchetypeId>)
        requires
            self.wf(),
            strictly_sorted(components_ids@),
            components_ids@.len() >= 1,
        ensures
            forall|aid: ArchetypeId|
                #[trigger] r@.contains(aid) <==> exists|p: Seq<TypeId>|
                    #[trigger] self.spec_search(p) == Some(aid) && seq_subset(components_ids@, p),
    {
        let r = query_forest(&self.root_nodes, components_ids, 0);
        proof {
            assert(components_ids@.skip(0) =~= components_ids@);
            assert forall|aid: ArchetypeId| #[trigger] r@.contains(aid) <==> exists|p: Seq<TypeId>|
                #[trigger] self.spec_search(p) == Some(aid) && seq_subset(components_ids@, p) by {
                lemma_query_characterize(self.root_nodes@, components_ids@, 0, aid);
                if exists|p: Seq<TypeId>|
                    #[trigger] self.spec_search(p) == Some(aid) && seq_subset(components_ids@, p) {
                    let p = choose|p: Seq<TypeId>|
                        #[trigger] self.spec_search(p) == Some(aid) && seq_subset(
                            components_ids@,
                            p,
                        );
                    if p.len() == 0 {
                        assert(p.contains(components_ids@[0]));
                        assert(false);
                    }
                    assert(forest_lookup(self.root_nodes@, p) == Some(aid));
                }
                if exists|p: Seq<TypeId>|
                    #[trigger] forest_lookup(self.root_nodes@, p) == Some(aid) && seq_subset(
                        components_ids@,
                        p,
                    ) {
                    let p = choose|p: Seq<TypeId>|
                        #[trigger] forest_lookup(self.root_nodes@, p) == Some(aid) && seq_subset(
                            components_ids@,
                            p,
                        );
                    assert(p.len() >= 1);
                    assert(self.spec_search(p) == Some(aid));
                }
            }
        }
        r
    }

    /// The archetype identifier a kind set is mapped to, if any.
    pub fn search(&self, archetype: Archetype) -> (r: Option<ArchetypeId>)
        requires
            self.wf(),
        ensures
            r == self.spec_search(archetype.ids()),
    {
        if archetype.components.is_empty() {
            self.empty_id
        } else {
            proof {
                assert(archetype.ids().skip(0) =~= archetype.ids());
            }
            search_rec(&self.root_nodes, &archetype.components, 0)
        }
    }
}

/// The archetype set: every archetype's metadata behind its identifier,
/// and the trie that maps each kind set to its identifier.
#[derive(Debug)]
pub struct Archetypes {
    archetypes_info: SparseSet<ArchetypeInfo>,
    archetypes_trie: ArchetypesTrie,
}

impl Archetypes {
    /// What the trie maps a kind-identifier sequence to.
    pub closed spec fn trie_at(self, p: Seq<TypeId>) -> Option<ArchetypeId> {
        self.archetypes_trie.spec_search(p)
    }

    pub closed spec fn spec_contains(self, a: ArchetypeId) -> bool {
        self.archetypes_info.spec_contains(a.0 as int)
    }

    /// The stored metadata of archetype `a`.
    pub closed spec fn spec_info(self, a: ArchetypeId) -> ArchetypeInfo
        recommends
            self.spec_contains(a),
    {
        self.archetypes_info.spec_at(a.0 as int)
    }

    /// Every mapped kind set points at a stored archetype whose metadata
    /// carries exactly that kind set; identifiers are never shared.
    pub closed spec fn wf(self) -> bool {
        &&& self.archetypes_trie.wf()
        &&& self.archetypes_info.wf()
        &&& forall|p: Seq<TypeId>|
            (#[trigger] self.trie_at(p)) is Some ==> {
                let a = self.trie_at(p).unwrap();
                self.spec_contains(a) && self.spec_info(a).ids() == p && self.spec_info(a).wf()
            }
    }

    /// A mapped kind set names a stored archetype carrying exactly it; in
    /// particular two different kind sets never share an identifier.
    pub proof fn lemma_trie_entry(self, p: Seq<TypeId>)
        requires
            self.wf(),
            self.trie_at(p) is Some,
        ensures
            self.spec_contains(self.trie_at(p).unwrap()),
            self.spec_info(self.trie_at(p).unwrap()).ids() == p,
            self.spec_info(self.trie_at(p).unwrap()).wf(),
    {
    }

    pub fn new() -> (r: Archetypes)
        ensures
            r.wf(),
            forall|p: Seq<TypeId>| (#[trigger] r.trie_at(p)) is None,
            forall|a: ArchetypeId| !r.spec_contains(a),
    {
        Archetypes { archetypes_info: SparseSet::new(), archetypes_trie: ArchetypesTrie::new() }
    }

    /// Stores a new archetype and maps its kind set to a fresh identifier.
    pub fn insert(&mut self, archetype_info: ArchetypeInfo) -> (r: Result<ArchetypeId, Error>)
        requires
            old(self).wf(),
            archetype_info.wf(),
        ensures
            final(self).wf(),
            match r {
                Ok(aid) => {
                    &&& (archetype_info.ids().len() > 0 ==> old(self).trie_at(archetype_info.ids())
                        is None)
                    &&& !old(self).spec_contains(aid)
                    &&& final(self).spec_contains(aid)
                    &&& final(self).spec_info(aid) == archetype_info
                    &&& forall|p: Seq<TypeId>|
                        #[trigger] final(self).trie_at(p) == if p == archetype_info.ids() {
                            Some(aid)
                        } else {
                            old(self).trie_at(p)
                        }
                    &&& forall|a: ArchetypeId|
                        a != aid ==> final(self).spec_contains(a) == old(self).spec_contains(a)
                    &&& forall|a: ArchetypeId|
                        a != aid && old(self).spec_contains(a) ==> final(self).spec_info(a) == old(self).spec_info(a)
                },
                Err(e) => e == Error::InsertingArchetypeDuplicate && old(self).trie_at(
                    archetype_info.ids(),
                ) is Some && forall|p: Seq<TypeId>|
                    #[trigger] final(self).trie_at(p) == old(self).trie_at(p),
            },
    {
        let arch = archetype_info.archetype();
        let ghost info = archetype_info;
        let id = self.archetypes_info.insert(archetype_info);
        let archetype_id = ArchetypeId(id);
        let r = self.archetypes_trie.insert(arch, archetype_id);
        match r {
            Ok(()) => {
                proof {
                    assert forall|p: Seq<TypeId>| (#[trigger] self.trie_at(p)) is Some implies {
                        let a = self.trie_at(p).unwrap();
                        self.spec_contains(a) && self.spec_info(a).ids() == p && self.spec_info(
                            a,
                        ).wf()
                    } by {
                        if p == info.ids() {
                        } else {
                            let a = self.trie_at(p).unwrap();
                            assert(old(self).trie_at(p) is Some);
                            assert(old(self).spec_contains(a));
                            assert(a.0 != id);
                        }
                    }
                }
                Ok(archetype_id)
            },
            Err(e) => {
                proof {
                    assert forall|p: Seq<TypeId>| (#[trigger] self.trie_at(p)) is Some implies {
                        let a = self.trie_at(p).unwrap();
                        self.spec_contains(a) && self.spec_info(a).ids() == p && self.spec_info(
                            a,
                        ).wf()
                    } by {
                        let a = self.trie_at(p).unwrap();
                        assert(old(self).trie_at(p) is Some);
                        assert(old(self).spec_contains(a));
                        assert(a.0 != id);
                    }
                }
                Err(e)
            },
        }
    }

    /// Every stored archetype whose kind set carries all the queried
    /// identifiers.
    pub fn query_ids(&self, components_ids: &Vec<TypeId>) -> (r: Vec<ArchetypeId>)
        requires
            self.wf(),
            strictly_sorted(components_ids@),
            components_ids@.len() >= 1,
        ensures
            forall|aid: ArchetypeId|
                #[trigger] r@.contains(aid) <==> exists|p: Seq<TypeId>|
                    #[trigger] self.trie_at(p) == Some(aid) && seq_subset(components_ids@, p),
            forall|aid: ArchetypeId|
                r@.contains(aid) ==> self.spec_contains(aid) && self.spec_info(aid).wf()
                    && seq_subset(components_ids@, self.spec_info(aid).ids()),
    {
        let r = self.archetypes_trie.query_ids(components_ids);
        proof {
            assert forall|aid: ArchetypeId| #[trigger] r@.contains(aid) <==> exists|p: Seq<TypeId>|
                #[trigger] self.trie_at(p) == Some(aid) && seq_subset(components_ids@, p) by {
                if r@.contains(aid) {
                    let p = choose|p: Seq<TypeId>|
                        #[trigger] self.archetypes_trie.spec_search(p) == Some(aid) && seq_subset(
                            components_ids@,
                            p,
                        );
                    assert(self.trie_at(p) == Some(aid) && seq_subset(components_ids@, p));
                }
                if exists|p: Seq<TypeId>|
                    #[trigger] self.trie_at(p) == Some(aid) && seq_subset(components_ids@, p) {
                    let p = choose|p: Seq<TypeId>|
                        #[trigger] self.trie_at(p) == Some(aid) && seq_subset(components_ids@, p);
                    assert(self.archetypes_trie.spec_search(p) == Some(aid) && seq_subset(
                        components_ids@,
                        p,
                    ));
                    assert(r@.contains(aid));
                }
            }
            assert forall|aid: ArchetypeId| r@.contains(aid) implies self.spec_contains(aid)
                && self.spec_info(aid).wf() && seq_subset(
                components_ids@,
                self.spec_info(aid).ids(),
            ) by {
                let p = choose|p: Seq<TypeId>|
                    #[trigger] self.trie_at(p) == Some(aid) && seq_subset(components_ids@, p);
                self.lemma_trie_entry(p);
            }
        }
        r
    }

    /// The stored metadata of an archetype identifier.
    pub fn get_info(&self, archetype_id: ArchetypeId) -> (r: Result<&ArchetypeInfo, Error>)
        ensures
            match r {
                Ok(info) => self.spec_contains(archetype_id) && *info == self.spec_info(
                    archetype_id,
                ),
                Err(e) => e == Error::NonExistingArchetype && !self.spec_contains(archetype_id),
            },
    {
        match self.archetypes_info.get(archetype_id.0) {
            Some(info) => Ok(info),
            None => Err(Error::NonExistingArchetype),
        }
    }

    /// The identifier of the archetype with exactly this kind set, if one
    /// is stored.
    pub fn get_id(&self, archetype: &ArchetypeInfo) -> (r: Option<ArchetypeId>)
        requires
            self.wf(),
            archetype.wf(),
        ensures
            r == self.trie_at(archetype.ids()),
            r is Some ==> self.spec_contains(r.unwrap()) && self.spec_info(r.unwrap()).ids()
                == archetype.ids(),
    {
        self.archetypes_trie.search(archetype.archetype())
    }
}

} // verus!
