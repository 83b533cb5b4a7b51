use lithos_core::identifier::{PathKey, SchemaId, SchemaName};
use lithos_core::index::{NameIdPairs, PathIdPairs, SchemaIndex};

#[test]
fn schema_index_lookups_work() {
    let name1 = SchemaName::try_new("user").unwrap();
    let name2 = SchemaName::try_new("task").unwrap();
    let id1 = SchemaId::new().unwrap();
    let id2 = SchemaId::new().unwrap();
    let index = SchemaIndex::from_pairs(vec![(name1.clone(), id1), (name2.clone(), id2)], vec![]).unwrap();
    assert_eq!(index.get_id_by_name(&name1), Some(id1));
    assert_eq!(index.get_id_by_name(&name2), Some(id2));
    assert_eq!(index.get_name_by_id(&id1), Some(&name1));
    assert_eq!(index.get_name_by_id(&id2), Some(&name2));
}

#[test]
fn from_path_id_pairs_derives_names() {
    let id1 = SchemaId::new().unwrap();
    let id2 = SchemaId::new().unwrap();
    let index = SchemaIndex::from_path_id_pairs(vec![
        (PathKey::try_new("schemas/user.json").unwrap(), id1),
        (PathKey::try_new("schemas/task.json").unwrap(), id2),
    ])
    .unwrap();
    let name_user = SchemaName::try_new("user").unwrap();
    let name_task = SchemaName::try_new("task").unwrap();
    assert_eq!(index.get_id_by_name(&name_user), Some(id1));
    assert_eq!(index.get_id_by_name(&name_task), Some(id2));
}

#[test]
fn name_id_pairs_newtype() {
    let name1 = SchemaName::try_new("user").unwrap();
    let name2 = SchemaName::try_new("task").unwrap();
    let id1 = SchemaId::new().unwrap();
    let id2 = SchemaId::new().unwrap();
    let mut pairs = NameIdPairs::new();
    pairs.push((name1.clone(), id1));
    pairs.push((name2.clone(), id2));
    assert_eq!(pairs.len(), 2);
    assert!(!pairs.is_empty());
    let vec: Vec<_> = pairs.into_vec();
    assert_eq!(vec.len(), 2);
}

#[test]
fn path_id_pairs_newtype() {
    let id1 = SchemaId::new().unwrap();
    let id2 = SchemaId::new().unwrap();
    let mut pairs = PathIdPairs::new();
    pairs.push((PathKey::try_new("schemas/user.json").unwrap(), id1));
    pairs.push((PathKey::try_new("schemas/task.json").unwrap(), id2));
    assert_eq!(pairs.len(), 2);
    assert!(!pairs.is_empty());
    let vec: Vec<_> = pairs.into_vec();
    assert_eq!(vec.len(), 2);
}

#[test]
fn name_id_pairs_from_vec() {
    let name1 = SchemaName::try_new("user").unwrap();
    let id1 = SchemaId::new().unwrap();
    let pairs = NameIdPairs::from(vec![(name1, id1)]);
    assert_eq!(pairs.len(), 1);
}

#[test]
fn path_id_pairs_from_vec() {
    let id1 = SchemaId::new().unwrap();
    let pairs = PathIdPairs::from(vec![(PathKey::try_new("schemas/user.json").unwrap(), id1)]);
    assert_eq!(pairs.len(), 1);
}

#[test]
fn pairs_collect_works() {
    let name1 = SchemaName::try_new("user").unwrap();
    let id1 = SchemaId::new().unwrap();
    let pairs = NameIdPairs::from_iter(vec![(name1, id1)].into_iter().collect());
    assert_eq!(pairs.len(), 1);
    let path1 = PathKey::try_new("schemas/user.json").unwrap();
    let id2 = SchemaId::new().unwrap();
    let p_pairs = PathIdPairs::from_iter(vec![(path1, id2)].into_iter().collect());
    assert_eq!(p_pairs.len(), 1);
}

#[test]
fn from_name_id_pairs_only_works() {
    let name1 = SchemaName::try_new("user").unwrap();
    let id1 = SchemaId::new().unwrap();
    let index = SchemaIndex::from_name_id_pairs_only(vec![(name1.clone(), id1)]);
    assert_eq!(index.get_id_by_name(&name1), Some(id1));
    assert_eq!(index.get_name_by_id(&id1), None);
}

#[test]
fn insert_name_and_path_update_lookups() {
    let id = SchemaId::from_u128(1);
    let mut index = SchemaIndex::new();
    index.insert_name(SchemaName::try_new("old").unwrap(), id);
    index.insert_name(SchemaName::try_new("new").unwrap(), id);
    assert_eq!(index.get_id_by_name(&SchemaName::try_new("old").unwrap()), None);
    assert_eq!(index.get_id_by_name(&SchemaName::try_new("new").unwrap()), Some(id));
    let p1 = PathKey::try_new("schemas/new.json").unwrap();
    let p2 = PathKey::try_new("schemas/moved.json").unwrap();
    index.insert_path(p1.clone(), id).unwrap();
    index.insert_path(p2.clone(), id).unwrap();
    assert_eq!(index.get_id_by_path(&p1), None);
    assert_eq!(index.get_id_by_path(&p2), Some(id));
    assert_eq!(index.len(), 1);
    assert!(index.insert_path(PathKey::try_new("schemas/.json").unwrap(), SchemaId::from_u128(2)).is_err());
}
