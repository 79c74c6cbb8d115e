use asset_pipeline::folders::{
    folder_display_name, merge_folders, normalize_folder_path, validate_folder_name, FolderInfo,
};
use asset_pipeline::store::{
    build_imported_asset, fts_phrase_query, ai_config_from_input, AiConfig, AiConfigInput, Asset,
    Store, Tag,
};
use asset_pipeline::tagging::{apply_ai_analysis, AnalysisResult, SuggestedTag};
use asset_pipeline::LibError;

fn folder(path: &str, name: &str, count: i64) -> FolderInfo {
    FolderInfo { path: path.to_string(), name: name.to_string(), asset_count: count }
}

fn asset(id: &str, lib: &str, name: &str, folder_path: &str) -> Asset {
    build_imported_asset(
        id.to_string(),
        lib.to_string(),
        name.to_string(),
        format!("assets/{}.png", id),
        "image/png".to_string(),
        "image".to_string(),
        4,
        "00".repeat(32),
        Some(1),
        Some(1),
        None,
        folder_path,
    )
}

#[test]
fn folder_merge_scenario() {
    let db = vec![folder("/a", "a", 3)];
    let fs = vec![folder("/a", "a", 0), folder("/b", "b", 0)];
    let merged = merge_folders(db, fs);
    assert_eq!(merged.len(), 2);
    assert_eq!(merged[0].path, "/a");
    assert_eq!(merged[0].asset_count, 3);
    assert_eq!(merged[1].path, "/b");
    assert_eq!(merged[1].asset_count, 0);
}

#[test]
fn folder_names_and_normalization() {
    assert_eq!(folder_display_name("/a/b"), "b");
    assert_eq!(folder_display_name("a/b/"), "b");
    assert_eq!(folder_display_name("/"), "/");
    assert_eq!(folder_display_name(""), "/");
    assert_eq!(folder_display_name("solo"), "solo");
    assert_eq!(normalize_folder_path(""), "/");
    assert_eq!(normalize_folder_path("art"), "/art");
    assert_eq!(normalize_folder_path("/art"), "/art");
    assert!(validate_folder_name("textures").is_ok());
    assert_eq!(validate_folder_name(""), Err(LibError::InvalidInput));
    assert_eq!(validate_folder_name("a/b"), Err(LibError::InvalidInput));
    assert_eq!(validate_folder_name("a\\b"), Err(LibError::InvalidInput));
}

#[test]
fn store_asset_lifecycle() {
    let mut store = Store::new();
    store.insert_asset(asset("a1", "lib", "one.png", "art")).unwrap();
    store.insert_asset(asset("a2", "lib", "two.png", "")).unwrap();
    assert!(store.insert_asset(asset("a1", "lib", "dup.png", "")).is_err());
    assert_eq!(store.get_asset("a1").unwrap().folder_path, "/art");
    assert_eq!(store.get_asset("a2").unwrap().folder_path, "/");
    assert!(matches!(store.get_asset("zz"), Err(LibError::NotFound)));
    store.rename_asset("a1", "renamed.png");
    assert_eq!(store.get_asset("a1").unwrap().file_name, "renamed.png");
    assert_eq!(store.get_asset("a1").unwrap().original_name, "one.png");
    store.update_asset_description("a2", "a fine asset");
    assert_eq!(store.get_asset("a2").unwrap().description, "a fine asset");
    store.move_assets(&vec!["a2".to_string()], "/art");
    assert_eq!(store.get_asset("a2").unwrap().folder_path, "/art");
    store.delete_assets(&vec!["a1".to_string()]);
    assert!(store.get_asset("a1").is_err());
    assert!(store.get_asset("a2").is_ok());
}

#[test]
fn store_folders_from_assets() {
    let mut store = Store::new();
    store.insert_asset(asset("a1", "lib", "one.png", "/a")).unwrap();
    store.insert_asset(asset("a2", "lib", "two.png", "/a")).unwrap();
    store.insert_asset(asset("a3", "lib", "three.png", "/b/c")).unwrap();
    store.insert_asset(asset("x", "other", "alien.png", "/z")).unwrap();
    let folders = store.get_folders("lib");
    assert_eq!(folders.len(), 2);
    assert_eq!(folders[0].path, "/a");
    assert_eq!(folders[0].asset_count, 2);
    assert_eq!(folders[0].name, "a");
    assert_eq!(folders[1].path, "/b/c");
    assert_eq!(folders[1].asset_count, 1);
    assert_eq!(folders[1].name, "c");
}

#[test]
fn embeddings_replace_per_asset_and_model() {
    let mut store = Store::new();
    store.insert_asset(asset("a1", "lib", "one.png", "/")).unwrap();
    store.save_embedding("e1".to_string(), "a1", "default", vec![1, 2, 3, 4]);
    store.save_embedding("e2".to_string(), "a1", "other", vec![9, 9, 9, 9]);
    store.save_embedding("e3".to_string(), "a1", "default", vec![5, 6, 7, 8]);
    let rows = store.get_all_embeddings("lib", "default");
    assert_eq!(rows.len(), 1);
    assert_eq!(rows[0].0, "a1");
    assert_eq!(rows[0].1, vec![5, 6, 7, 8]);
    // embeddings of assets outside the library stay invisible
    assert_eq!(store.get_all_embeddings("nolib", "default").len(), 0);
}

#[test]
fn tags_assign_remove_and_count() {
    let mut store = Store::new();
    store.insert_asset(asset("a1", "lib", "one.png", "/")).unwrap();
    let t1 = store.get_or_create_tag("t1".to_string(), "lib", "zeta", false).unwrap();
    let again = store.get_or_create_tag("t9".to_string(), "lib", "zeta", true).unwrap();
    assert_eq!(t1.id, again.id);
    assert_eq!(again.color, "#808080");
    let t2 = store.get_or_create_tag("t2".to_string(), "lib", "alpha", true).unwrap();
    store.assign_tags("a1", &vec![t1.id.clone(), t2.id.clone(), t1.id.clone()]);
    let tags = store.get_asset_tags("a1");
    assert_eq!(tags.len(), 2);
    assert_eq!(tags[0].name, "alpha"); // sorted by name
    assert_eq!(tags[1].name, "zeta");
    let listed = store.list_tags("lib", None);
    assert_eq!(listed.len(), 2);
    assert_eq!(listed[0].name, "alpha");
    assert_eq!(listed[0].asset_count, 1);
    store.remove_tags("a1", &vec![t1.id.clone()]);
    assert_eq!(store.get_asset_tags("a1").len(), 1);
    store.rename_tag(&t2.id, "beta");
    assert_eq!(store.get_asset_tags("a1")[0].name, "beta");
    store.delete_tag(&t2.id);
    assert_eq!(store.list_tags("lib", None).len(), 1);
}

#[test]
fn search_by_tags_any_and_all() {
    let mut store = Store::new();
    store.insert_asset(asset("a1", "lib", "one.png", "/")).unwrap();
    store.insert_asset(asset("a2", "lib", "two.png", "/")).unwrap();
    let t1 = store.get_or_create_tag("t1".to_string(), "lib", "red", false).unwrap();
    let t2 = store.get_or_create_tag("t2".to_string(), "lib", "blue", false).unwrap();
    store.assign_tags("a1", &vec![t1.id.clone(), t2.id.clone()]);
    store.assign_tags("a2", &vec![t1.id.clone()]);
    let both = vec![t1.id.clone(), t2.id.clone()];
    let any = store.search_by_tags("lib", &both, false);
    assert_eq!(any.len(), 2);
    let all = store.search_by_tags("lib", &both, true);
    assert_eq!(all.len(), 1);
    assert_eq!(all[0].id, "a1");
    assert_eq!(store.search_by_tags("lib", &Vec::new(), false).len(), 0);
}

#[test]
fn libraries_and_ai_config() {
    let mut store = Store::new();
    store
        .create_library(asset_pipeline::store::Library {
            id: "L1".to_string(),
            name: "art".to_string(),
            root_path: "/tmp/art".to_string(),
            created_at: String::new(),
            updated_at: String::new(),
        })
        .unwrap();
    assert_eq!(store.get_library("L1").unwrap().name, "art");
    assert!(store.get_library("L2").is_err());
    assert_eq!(store.list_libraries().len(), 1);

    let c1 = ai_config_from_input(
        "c1".to_string(),
        AiConfigInput {
            provider_name: "openai".to_string(),
            api_endpoint: "https://example.invalid/v1".to_string(),
            api_key: "SECRET-REDACTED".to_string(),
            model_id: "gpt".to_string(),
            embedding_model: "embed".to_string(),
        },
    );
    assert!(c1.is_active);
    store.save_ai_config(c1);
    let c2 = AiConfig {
        id: "c2".to_string(),
        provider_name: "other".to_string(),
        api_endpoint: "https://example.invalid/v2".to_string(),
        api_key: "SECRET-REDACTED".to_string(),
        model_id: "m".to_string(),
        embedding_model: "e".to_string(),
        is_active: true,
        created_at: String::new(),
    };
    store.save_ai_config(c2);
    let active = store.get_active_ai_config().unwrap();
    assert_eq!(active.id, "c2");
    store.delete_library("L1");
    assert_eq!(store.list_libraries().len(), 0);
}

#[test]
fn fts_phrase_quoting() {
    assert_eq!(fts_phrase_query("hello world"), "\"hello world\"");
    assert_eq!(fts_phrase_query("say \"hi\""), "\"say \"\"hi\"\"\"");
    assert_eq!(fts_phrase_query(""), "\"\"");
}

#[test]
fn ai_analysis_updates_description_and_tags() {
    let mut store = Store::new();
    store.insert_asset(asset("a1", "lib", "one.png", "/")).unwrap();
    let existing = store.get_or_create_tag("t0".to_string(), "lib", "pixel", false).unwrap();
    let analysis = AnalysisResult {
        tags: vec![
            SuggestedTag { name: "pixel".to_string(), category: "style".to_string() },
            SuggestedTag { name: "sword".to_string(), category: "content".to_string() },
        ],
        description: "a pixel-art sword".to_string(),
        suggested_name: Some("pixel_sword".to_string()),
    };
    let ids = vec!["n1".to_string(), "n2".to_string()];
    let out = apply_ai_analysis(&mut store, "a1", "lib", &analysis, &ids).unwrap();
    assert_eq!(out.description, "a pixel-art sword");
    assert_eq!(out.suggested_name.as_deref(), Some("pixel_sword"));
    assert_eq!(out.tags.len(), 2);
    assert_eq!(out.tags[0].id, existing.id); // reused, not duplicated
    assert_eq!(out.tags[1].id, "n2");
    assert!(out.tags[1].is_ai);
    assert_eq!(store.get_asset("a1").unwrap().description, "a pixel-art sword");
    let tags = store.get_asset_tags("a1");
    assert_eq!(tags.len(), 2);
}

#[test]
fn paginated_listing_sorts_and_slices() {
    let mut store = Store::new();
    let mut a1 = asset("a1", "lib", "banana.png", "/");
    a1.file_size = 30;
    let mut a2 = asset("a2", "lib", "apple.png", "/");
    a2.file_size = 10;
    let mut a3 = asset("a3", "lib", "cherry.png", "/");
    a3.file_size = 20;
    store.insert_asset(a1).unwrap();
    store.insert_asset(a2).unwrap();
    store.insert_asset(a3).unwrap();
    store.insert_asset(asset("x", "other", "zzz.png", "/")).unwrap();

    let by_name = store.get_assets("lib", None, None, 1, 10, "name", "asc");
    assert_eq!(by_name.total, 3);
    let names: Vec<&str> = by_name.assets.iter().map(|a| a.file_name.as_str()).collect();
    assert_eq!(names, ["apple.png", "banana.png", "cherry.png"]);

    let by_size_desc = store.get_assets("lib", None, None, 1, 2, "size", "desc");
    assert_eq!(by_size_desc.total, 3);
    assert_eq!(by_size_desc.assets.len(), 2);
    assert_eq!(by_size_desc.assets[0].id, "a1");
    assert_eq!(by_size_desc.assets[1].id, "a3");

    let page2 = store.get_assets("lib", None, None, 2, 2, "size", "desc");
    assert_eq!(page2.assets.len(), 1);
    assert_eq!(page2.assets[0].id, "a2");

    let filtered = store.get_assets("lib", Some("/"), Some("image"), 1, 10, "date", "asc");
    assert_eq!(filtered.total, 3);
    let empty = store.get_assets("lib", Some("/nowhere"), None, 1, 10, "name", "asc");
    assert_eq!(empty.total, 0);
    assert!(empty.assets.is_empty());
}

#[test]
fn folder_rename_moves_subtrees() {
    let mut store = Store::new();
    store.insert_asset(asset("a1", "lib", "one.png", "/old")).unwrap();
    store.insert_asset(asset("a2", "lib", "two.png", "/old/deep")).unwrap();
    store.insert_asset(asset("a3", "lib", "three.png", "/older")).unwrap();
    store.insert_asset(asset("x", "other", "keep.png", "/old")).unwrap();
    store.update_folder_path("lib", "old", "fresh");
    assert_eq!(store.get_asset("a1").unwrap().folder_path, "/fresh");
    assert_eq!(store.get_asset("a2").unwrap().folder_path, "/fresh/deep");
    assert_eq!(store.get_asset("a3").unwrap().folder_path, "/older");
    assert_eq!(store.get_asset("x").unwrap().folder_path, "/old");
}

#[test]
fn asset_detail_bundles_tags() {
    let mut store = Store::new();
    store.insert_asset(asset("a1", "lib", "one.png", "/")).unwrap();
    let t = store.get_or_create_tag("t1".to_string(), "lib", "nice", false).unwrap();
    store.assign_tags("a1", &vec![t.id.clone()]);
    let detail = store.get_asset_detail("a1").unwrap();
    assert_eq!(detail.asset.id, "a1");
    assert_eq!(detail.tags.len(), 1);
    assert_eq!(detail.tags[0].name, "nice");
    assert!(store.get_asset_detail("nope").is_err());
}

#[test]
fn ai_analysis_rejects_colliding_tag_ids() {
    let mut store = Store::new();
    store.insert_asset(asset("a1", "lib", "one.png", "/")).unwrap();
    let taken = store.get_or_create_tag("t0".to_string(), "lib", "pixel", false).unwrap();
    let analysis = AnalysisResult {
        tags: vec![SuggestedTag { name: "sword".to_string(), category: "content".to_string() }],
        description: "a sword".to_string(),
        suggested_name: None,
    };
    // the drawn id collides with an existing tag while no tag is named sword
    let ids = vec![taken.id.clone()];
    match apply_ai_analysis(&mut store, "a1", "lib", &analysis, &ids) {
        Err(LibError::InvalidInput) => {},
        _ => panic!("expected an id collision"),
    }
    // the description was already stored, and no row was removed
    assert_eq!(store.get_asset("a1").unwrap().description, "a sword");
    assert_eq!(store.list_tags("lib", None).len(), 1);
}

#[test]
fn derived_assets_carry_lineage_text() {
    let a = asset_pipeline::store::build_derived_asset(
        "d1".to_string(),
        "lib".to_string(),
        "one_nobg.png".to_string(),
        "one.png".to_string(),
        "assets/d1.png".to_string(),
        "image/png".to_string(),
        "image".to_string(),
        10,
        "00".repeat(32),
        Some(2),
        Some(2),
        None,
        "art",
        "Background removed from one.png".to_string(),
        "a described asset".to_string(),
    );
    assert_eq!(a.file_name, "one_nobg.png");
    assert_eq!(a.original_name, "one.png");
    assert_eq!(a.description, "Background removed from one.png");
    assert_eq!(a.ai_description, "a described asset");
    assert_eq!(a.folder_path, "/art");
}
