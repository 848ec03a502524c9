use kiwi::archetype::Archetype;
use kiwi::archetype::ArchetypeId;
use kiwi::archetype::ArchetypeInfo;
use kiwi::archetype::ArchetypesTrie;
use kiwi::component::static_sort;
use kiwi::component::TypeId;
use kiwi::component::TypeInfo;

fn kind_a() -> TypeInfo {
    TypeInfo::new(TypeId(101), 1, false)
}

fn kind_b() -> TypeInfo {
    TypeInfo::new(TypeId(102), 1, false)
}

fn kind_c() -> TypeInfo {
    TypeInfo::new(TypeId(103), 1, false)
}

fn kind_d() -> TypeInfo {
    TypeInfo::new(TypeId(104), 1, false)
}

fn abc() -> ArchetypeInfo {
    let mut arc = ArchetypeInfo::default();
    let _ = arc.add_component(kind_a());
    let _ = arc.add_component(kind_b());
    let _ = arc.add_component(kind_c());
    arc
}

fn sorted_ids(trie: &ArchetypesTrie, query: &[TypeInfo]) -> Vec<usize> {
    let ids: Vec<TypeId> = query.iter().map(|i| i.id).collect();
    let sorted = static_sort(&ids);
    let mut found: Vec<usize> = trie.query_ids(&sorted).iter().map(|a| a.0).collect();
    found.sort_unstable();
    found.dedup();
    found
}

#[test]
fn archetype_create() {
    let mut arc = ArchetypeInfo::default();
    assert!(arc.is_empty());

    assert!(arc.add_component(kind_a()).is_ok());
    assert_eq!(arc.len(), 1);
    assert!(arc.add_component(kind_b()).is_ok());
    assert_eq!(arc.len(), 2);
    assert!(arc.add_component(kind_c()).is_ok());
    assert_eq!(arc.len(), 3);

    assert!(arc.add_component(kind_a()).is_err());
    assert!(arc.add_component(kind_b()).is_err());
    assert!(arc.add_component(kind_c()).is_err());

    assert!(arc.remove_component(kind_a().id).is_ok());
    assert_eq!(arc.len(), 2);
    assert!(arc.remove_component(kind_b().id).is_ok());
    assert_eq!(arc.len(), 1);
    assert!(arc.remove_component(kind_c().id).is_ok());
    assert_eq!(arc.len(), 0);

    assert!(arc.remove_component(kind_a().id).is_err());
    assert!(arc.remove_component(kind_b().id).is_err());
    assert!(arc.remove_component(kind_c().id).is_err());
}

#[test]
fn component_trie_insert() {
    let mut trie = ArchetypesTrie::default();
    let mut arc = ArchetypeInfo::default();
    let some_arc_id = ArchetypeId(0);

    let _ = arc.add_component(kind_a());
    assert!(trie.insert(arc.archetype(), some_arc_id).is_ok());

    let _ = arc.add_component(kind_b());
    assert!(trie.insert(arc.archetype(), some_arc_id).is_ok());

    let _ = arc.add_component(kind_c());
    assert!(trie.insert(arc.archetype(), some_arc_id).is_ok());

    let mut arc = ArchetypeInfo::default();
    let _ = arc.add_component(kind_b());
    let _ = arc.add_component(kind_c());
    let _ = arc.add_component(kind_d());
    assert!(trie.insert(arc.archetype(), some_arc_id).is_ok());

    let mut arc = ArchetypeInfo::default();
    let _ = arc.add_component(kind_a());
    let _ = arc.add_component(kind_c());
    let _ = arc.add_component(kind_d());
    assert!(trie.insert(arc.archetype(), some_arc_id).is_ok());
    assert!(trie.insert(arc.archetype(), some_arc_id).is_err());
}

#[test]
fn component_trie_search() {
    let mut trie = ArchetypesTrie::default();
    let mut arc = ArchetypeInfo::default();

    let some_arc_id = ArchetypeId(0);
    let _ = arc.add_component(kind_a());
    let _ = arc.add_component(kind_b());
    let _ = arc.add_component(kind_c());
    assert!(trie.insert(arc.archetype(), some_arc_id).is_ok());
    assert_eq!(trie.search(arc.archetype()), Some(some_arc_id));

    let some_arc_id = ArchetypeId(1);
    let mut arc = ArchetypeInfo::default();
    let _ = arc.add_component(kind_b());
    let _ = arc.add_component(kind_c());
    let _ = arc.add_component(kind_d());
    assert!(trie.insert(arc.archetype(), some_arc_id).is_ok());
    assert_eq!(trie.search(arc.archetype()), Some(some_arc_id));

    let some_arc_id = ArchetypeId(2);
    let mut arc = ArchetypeInfo::default();
    let _ = arc.add_component(kind_a());
    let _ = arc.add_component(kind_c());
    let _ = arc.add_component(kind_d());
    assert!(trie.insert(arc.archetype(), some_arc_id).is_ok());
    assert_eq!(trie.search(arc.archetype()), Some(some_arc_id));

    let mut arc = ArchetypeInfo::default();
    let _ = arc.add_component(kind_a());
    let _ = arc.add_component(kind_b());
    let _ = arc.add_component(kind_d());
    assert_eq!(trie.search(arc.archetype()), None);
}

#[test]
fn component_trie_query() {
    let mut trie = ArchetypesTrie::default();

    let mut arc = ArchetypeInfo::default();
    let _ = arc.add_component(kind_a());
    let _ = arc.add_component(kind_b());
    let _ = arc.add_component(kind_c());
    assert!(trie.insert(arc.archetype(), ArchetypeId(0)).is_ok());

    let mut arc = ArchetypeInfo::default();
    let _ = arc.add_component(kind_b());
    let _ = arc.add_component(kind_c());
    let _ = arc.add_component(kind_d());
    assert!(trie.insert(arc.archetype(), ArchetypeId(1)).is_ok());

    let mut arc = ArchetypeInfo::default();
    let _ = arc.add_component(kind_a());
    let _ = arc.add_component(kind_c());
    let _ = arc.add_component(kind_d());
    assert!(trie.insert(arc.archetype(), ArchetypeId(2)).is_ok());

    let mut arc = ArchetypeInfo::default();
    let _ = arc.add_component(kind_a());
    let _ = arc.add_component(kind_b());
    let _ = arc.add_component(kind_d());
    assert!(trie.insert(arc.archetype(), ArchetypeId(3)).is_ok());

    let ids = sorted_ids(&trie, &[kind_b(), kind_c()]);
    assert_eq!(ids, vec![0, 1]);

    let ids = sorted_ids(&trie, &[kind_a()]);
    assert_eq!(ids, vec![0, 2, 3]);
}

#[test]
fn components_component_tuple_ids() {
    let u8_id = TypeId(8);
    let bool_id = TypeId(1);
    let i32_id = TypeId(32);

    let mut expected = vec![u8_id, bool_id, i32_id];
    expected.sort_unstable();

    let sorted = |ids: Vec<TypeId>| static_sort(&ids);

    assert_eq!(sorted(vec![u8_id, bool_id, i32_id]), expected);
    assert_eq!(sorted(vec![bool_id, u8_id, i32_id]), expected);
    assert_eq!(sorted(vec![i32_id, bool_id, u8_id]), expected);
    assert_eq!(sorted(vec![i32_id, u8_id, bool_id]), expected);
}

#[test]
fn archetype_iter_sorted() {
    let arc = abc();
    let listed: Vec<TypeId> = arc.as_sorted_vec_of_component_ids();
    assert_eq!(listed, vec![TypeId(101), TypeId(102), TypeId(103)]);
    let arch: Archetype = arc.archetype();
    assert_eq!(arch.iter(), vec![TypeId(101), TypeId(102), TypeId(103)]);
    assert!(!arch.is_empty());
}

#[test]
fn trie_remove_unmaps() {
    let mut trie = ArchetypesTrie::default();
    let arc = abc();
    assert!(trie.insert(arc.archetype(), ArchetypeId(7)).is_ok());
    assert_eq!(trie.search(arc.archetype()), Some(ArchetypeId(7)));
    let direct = Archetype::from_sorted_ids(vec![TypeId(101), TypeId(102), TypeId(103)]);
    assert_eq!(trie.search(direct), Some(ArchetypeId(7)));
    assert!(trie.remove(arc.archetype()).is_ok());
    assert_eq!(trie.search(arc.archetype()), None);
    assert!(trie.remove(arc.archetype()).is_err());
}
