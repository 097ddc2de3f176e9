use shipyard::entity_id::EntityId;
use shipyard::serde_setup::{
    field_from_index, DeError, ExistingEntities, Field, GlobalDeConfig, GlobalSerConfig, SerConfig, SerInfos, TwoFields,
    WithShared,
};
use shipyard::sparse_set::set::SparseSet;

#[test]
fn default_configs() {
    let ser = GlobalSerConfig::default();
    assert!(ser.same_binary && ser.with_entities);
    assert_eq!(ser.with_shared, WithShared::PerStorage);
    let de = GlobalDeConfig::default();
    assert_eq!(de.existing_entities, ExistingEntities::AsNew);
    assert_eq!(de.with_shared, WithShared::PerStorage);
    let storage = SerConfig::default();
    assert!(storage.identifier.is_none() && !storage.with_shared);
}

#[test]
fn fields_are_found_by_index_name_and_bytes() {
    assert_eq!(field_from_index(0), Ok(Field::First));
    assert_eq!(field_from_index(1), Ok(Field::Second));
    assert_eq!(field_from_index(2), Err(DeError::InvalidIndex(2)));

    assert_eq!(SerInfos::field_from_str("same_binary"), Ok(Field::First));
    assert_eq!(SerInfos::field_from_str("with_entities"), Ok(Field::Second));
    assert_eq!(SerInfos::field_from_str("other"), Err(DeError::UnknownField("other".to_string())));
    assert_eq!(SerInfos::field_from_bytes(b"with_entities"), Ok(Field::Second));
    assert_eq!(SerInfos::field_from_bytes(b"x"), Err(DeError::InvalidBytes(b"x".to_vec())));

    assert_eq!(SparseSet::<u32>::field_from_str("ids"), Ok(Field::First));
    assert_eq!(SparseSet::<u32>::field_from_bytes(b"data"), Ok(Field::Second));
}

#[test]
fn ser_infos_from_map_and_sequence() {
    let mut fields = TwoFields::new();
    assert_eq!(SerInfos::check_key(&fields, Field::First), Ok(()));
    fields.set_first(true);
    assert_eq!(
        SerInfos::check_key(&fields, Field::First),
        Err(DeError::DuplicateField("same_binary".to_string()))
    );
    assert_eq!(SerInfos::from_fields(TwoFields { first: Some(true), second: None }), Err(DeError::MissingField("with_entities".to_string())));
    fields.set_second(false);
    assert_eq!(SerInfos::from_fields(fields), Ok(SerInfos { same_binary: true, with_entities: false }));

    assert_eq!(SerInfos::from_elements(None, Some(true)), Err(DeError::InvalidLength(0)));
    assert_eq!(SerInfos::from_elements(Some(true), None), Err(DeError::InvalidLength(1)));
    assert_eq!(SerInfos::from_elements(Some(false), Some(true)), Ok(SerInfos { same_binary: false, with_entities: true }));
}

#[test]
fn sparse_set_from_parts() {
    let dense = vec![EntityId::new(3), EntityId::new(0), EntityId::new_from_parts(40, 2)];
    let set = SparseSet::from_parts(dense.clone(), vec![30u32, 0, 400]).unwrap();
    assert_eq!(set.unclassified_bucket.dense, dense);
    assert_eq!(set.get(EntityId::new(3)), Some(&30));
    assert_eq!(set.get(EntityId::new(0)), Some(&0));
    assert_eq!(set.get(EntityId::new_from_parts(40, 2)), Some(&400));
    assert_eq!(set.get(EntityId::new(40)), None);
    assert_eq!(set.get(EntityId::new(1)), None);

    assert!(SparseSet::from_parts(vec![EntityId::new(1), EntityId::new(1)], vec![1u32, 2]).is_none());
    assert!(SparseSet::from_parts(vec![EntityId::new(1)], vec![1u32, 2]).is_none());
    assert!(SparseSet::from_parts(vec![EntityId::dead()], vec![1u32]).is_none());
}

#[test]
fn sparse_set_from_map_reports_missing_lists() {
    let fields: TwoFields<Vec<EntityId>, Vec<u32>> = TwoFields { first: None, second: Some(vec![]) };
    assert!(matches!(SparseSet::from_fields(fields), Err(DeError::MissingField(n)) if n == "dense"));
    let fields: TwoFields<Vec<EntityId>, Vec<u32>> = TwoFields { first: Some(vec![]), second: None };
    assert!(matches!(SparseSet::from_fields(fields), Err(DeError::MissingField(n)) if n == "data"));
    let fields = TwoFields { first: Some(vec![EntityId::new(5)]), second: Some(vec![7u32]) };
    let set = SparseSet::from_fields(fields).unwrap();
    assert_eq!(set.get(EntityId::new(5)), Some(&7));
    assert!(matches!(SparseSet::<u32>::from_elements(None, None), Err(DeError::InvalidLength(0))));
    let mut fields: TwoFields<Vec<EntityId>, Vec<u32>> = TwoFields::new();
    fields.set_second(vec![]);
    assert!(matches!(SparseSet::check_key(&fields, Field::Second), Err(DeError::DuplicateField(n)) if n == "data"));
}
