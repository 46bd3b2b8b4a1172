use unholy_force::assets::{classify_asset_file, AssetDb, AssetFile, AssetKind};

#[test]
fn editor_labels() {
    assert_eq!(AssetKind::UnitConfig.editor_label(), "Персонажи");
    assert_eq!(AssetKind::FloorPartAdjacencyConfig.editor_label(), "Связи частей");
    assert_eq!(AssetKind::GameGonfig.editor_label(), "Игры");
}

#[test]
fn asset_dirs_and_extensions() {
    assert_eq!(AssetKind::FloorPartConfig.asset_dir_name(), "floor_parts");
    assert_eq!(AssetKind::FloorPartConfig.file_extension(), ".part");
    assert_eq!(AssetKind::TagConfig.asset_dir_name(), "tags");
    assert_eq!(AssetKind::TagConfig.file_extension(), ".json5");
    assert_eq!(AssetKind::stored_kinds().len(), 8);
}

#[test]
fn loaded_assets_are_listed_and_read_back() {
    let mut db = AssetDb::new();
    db.insert_loaded_asset(AssetKind::ItemConfig, 7, "Sword".to_string(), b"{a:1}".to_vec());
    db.insert_loaded_asset(AssetKind::ItemConfig, 9, "Shield".to_string(), b"{b:2}".to_vec());
    let mut listed = db.list_all_assets(AssetKind::ItemConfig);
    listed.sort();
    assert_eq!(listed, vec![(7, "Sword".to_string()), (9, "Shield".to_string())]);
    assert_eq!(db.load_asset(AssetKind::ItemConfig, 9), b"{b:2}");
    assert_eq!(db.load_json5_asset(AssetKind::ItemConfig, 7), "{a:1}");
    assert!(db.list_all_assets(AssetKind::UnitConfig).is_empty());
}

#[test]
fn assets_of_kinds_not_on_disk_are_ignored() {
    let mut db = AssetDb::new();
    db.insert_loaded_asset(AssetKind::GameGonfig, 1, "g".to_string(), vec![1]);
    assert!(!db.has_asset(AssetKind::GameGonfig, 1));
    let id = db.create_asset(AssetKind::EffectMechanicConfig, "e", &[1, 2]).unwrap();
    assert!(!db.has_asset(AssetKind::EffectMechanicConfig, id));
}

#[test]
fn created_asset_reads_back_under_a_version_7_id() {
    let mut db = AssetDb::new();
    let id = db.create_asset(AssetKind::FloorPartConfig, "part", &[1, 2, 3]).unwrap();
    assert_eq!((id >> 76) & 0xF, 7);
    assert_eq!((id >> 62) & 0x3, 2);
    assert!(db.has_asset(AssetKind::FloorPartConfig, id));
    assert_eq!(db.load_asset(AssetKind::FloorPartConfig, id), &[1, 2, 3]);
    let other = db.create_json5_asset(AssetKind::TagConfig, "tag", "{x: 1}").unwrap();
    assert_ne!(id, other);
    assert_eq!(db.load_json5_asset(AssetKind::TagConfig, other), "{x: 1}");
    assert_eq!(db.list_all_assets(AssetKind::TagConfig), vec![(other, "tag".to_string())]);
}

#[test]
fn update_rename_delete_and_flush() {
    let mut db = AssetDb::new();
    db.insert_loaded_asset(AssetKind::UnitConfig, 1, "Orc".to_string(), b"{}".to_vec());
    db.insert_loaded_asset(AssetKind::UnitConfig, 2, "Elf".to_string(), b"{}".to_vec());
    db.update_json5_asset(AssetKind::UnitConfig, 1, "{hp: 3}");
    db.update_asset(AssetKind::UnitConfig, 3, b"nothing");
    db.rename_asset(AssetKind::UnitConfig, 1, "Big orc");
    db.delete_asset(AssetKind::UnitConfig, 2);
    db.delete_asset(AssetKind::UnitConfig, 5);
    assert_eq!(db.load_json5_asset(AssetKind::UnitConfig, 1), "{hp: 3}");
    assert!(!db.has_asset(AssetKind::UnitConfig, 2));
    assert!(!db.has_asset(AssetKind::UnitConfig, 3));

    let flush = db.flush_assets_to_disk();
    assert_eq!(flush.removed, vec![(AssetKind::UnitConfig, 2)]);
    assert_eq!(flush.written.len(), 1);
    assert_eq!(flush.written[0].0, AssetKind::UnitConfig);
    assert_eq!(flush.written[0].1, 1);
    assert_eq!(flush.written[0].2, "Big orc");
    assert_eq!(flush.written[0].3, b"{hp: 3}".to_vec());

    let again = db.flush_assets_to_disk();
    assert!(again.removed.is_empty());
    assert!(again.written.is_empty());
    assert_eq!(db.load_json5_asset(AssetKind::UnitConfig, 1), "{hp: 3}");
}

#[test]
fn changed_then_deleted_asset_is_not_written() {
    let mut db = AssetDb::new();
    db.insert_loaded_asset(AssetKind::TagConfig, 4, "t".to_string(), vec![0]);
    db.update_asset(AssetKind::TagConfig, 4, &[1]);
    db.update_asset(AssetKind::TagConfig, 4, &[2]);
    db.delete_asset(AssetKind::TagConfig, 4);
    let flush = db.flush_assets_to_disk();
    assert_eq!(flush.removed, vec![(AssetKind::TagConfig, 4)]);
    assert!(flush.written.is_empty());
}

#[test]
fn asset_file_names() {
    let id = 0x67e55044_10b1_426f_9247_bb680e5fe0c8u128;
    assert_eq!(
        classify_asset_file(AssetKind::TagConfig, "67e55044-10b1-426f-9247-bb680e5fe0c8.json5"),
        AssetFile::Asset(id)
    );
    assert_eq!(
        classify_asset_file(AssetKind::FloorPartConfig, "67e55044-10b1-426f-9247-bb680e5fe0c8.part"),
        AssetFile::Asset(id)
    );
    assert_eq!(
        classify_asset_file(AssetKind::TagConfig, "67e55044-10b1-426f-9247-bb680e5fe0c8.json5x.json5"),
        AssetFile::Asset(id)
    );
    assert_eq!(
        classify_asset_file(AssetKind::FloorPartConfig, "67e55044-10b1-426f-9247-bb680e5fe0c8.json5"),
        AssetFile::Other
    );
    assert_eq!(
        classify_asset_file(AssetKind::TagConfig, "67e55044-10b1-426f-9247-bb680e5fe0c8.name"),
        AssetFile::Other
    );
    assert_eq!(classify_asset_file(AssetKind::TagConfig, "notes.json5"), AssetFile::BadId);
    assert_eq!(classify_asset_file(AssetKind::TagConfig, ".json5"), AssetFile::BadId);
    assert_eq!(classify_asset_file(AssetKind::TagConfig, "json5"), AssetFile::Other);
}

#[test]
fn created_asset_id_is_built_from_time_and_random_bytes() {
    let mut db = AssetDb::new();
    let random = [0xAB, 0xCD, 0xEF, 1, 2, 3, 4, 5, 6, 7];
    let id = db.create_asset_with(AssetKind::UnitConfig, "orc", b"{}", 0x0190_1234_5678, &random);
    assert_eq!(id, 0x0190_1234_5678_7BCD_AF01_0203_0405_0607);
    assert!(db.has_asset(AssetKind::UnitConfig, id));
    assert_eq!(db.list_all_assets(AssetKind::UnitConfig), vec![(id, "orc".to_string())]);
}

#[test]
fn created_asset_needs_a_timestamp_that_fits_in_64_bits() {
    let mut db = AssetDb::new();
    let random = [0xAB, 0xCD, 0xEF, 1, 2, 3, 4, 5, 6, 7];
    let too_late = (u64::MAX as u128) + 1;
    assert_eq!(db.create_asset_at(AssetKind::UnitConfig, "orc", b"{}", too_late, &random), None);
    assert!(db.list_all_assets(AssetKind::UnitConfig).is_empty());
    let id = db.create_asset_at(AssetKind::UnitConfig, "orc", b"{}", 0x0190_1234_5678, &random).unwrap();
    assert_eq!(id, 0x0190_1234_5678_7BCD_AF01_0203_0405_0607);
    assert!(db.has_asset(AssetKind::UnitConfig, id));
}
