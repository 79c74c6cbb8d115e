//! The library store: the canonical Library, Asset, Tag and Embedding
//! records and the operations the command layer consumes. The store is an
//! in-memory model of the relational index with the same row semantics:
//! unique ids, unique tag assignments, and at most one embedding per asset
//! and model.

use vstd::prelude::*;

use crate::LibError;
use crate::folders::FolderInfo;
use crate::folders::spec_folder_name;
use crate::folders::folder_display_name;
use crate::folders::contains_path;
use crate::folders::sorted_by_path;
use crate::strings::{lex_le, lemma_lex_le_antisym, lemma_lex_le_total, lemma_lex_le_trans, str_eq, str_le, str_starts_with};

verus! {

/// The root of one asset namespace, bound to a filesystem directory.
pub struct Library {
    pub id: String,
    pub name: String,
    pub root_path: String,
    pub created_at: String,
    pub updated_at: String,
}

/// One stored file and its metadata.
pub struct Asset {
    pub id: String,
    pub library_id: String,
    pub file_name: String,
    pub original_name: String,
    pub relative_path: String,
    pub file_type: String,
    pub mime_type: String,
    pub file_size: i64,
    pub file_hash: String,
    pub width: Option<i32>,
    pub height: Option<i32>,
    pub duration_ms: Option<i64>,
    pub description: String,
    pub ai_description: String,
    pub thumbnail_path: Option<String>,
    pub folder_path: String,
    pub created_at: String,
    pub updated_at: String,
    pub imported_at: String,
}

/// A label that can be assigned to assets.
pub struct Tag {
    pub id: String,
    pub library_id: String,
    pub name: String,
    pub color: String,
    pub category: String,
    pub is_ai: bool,
    pub created_at: String,
}

/// A tag together with the number of assets carrying it.
pub struct TagWithCount {
    pub id: String,
    pub library_id: String,
    pub name: String,
    pub color: String,
    pub category: String,
    pub is_ai: bool,
    pub created_at: String,
    pub asset_count: i64,
}

/// One stored embedding: the vector bytes an asset has under one model.
pub struct Embedding {
    pub id: String,
    pub asset_id: String,
    pub model: String,
    pub vector: Vec<u8>,
    pub created_at: String,
}

/// The stored AI collaborator configuration.
pub struct AiConfig {
    pub id: String,
    pub provider_name: String,
    pub api_endpoint: String,
    pub api_key: String,
    pub model_id: String,
    pub embedding_model: String,
    pub is_active: bool,
    pub created_at: String,
}

/// An installed plugin row; manifests are opaque configuration consumed
/// elsewhere.
pub struct Plugin {
    pub id: String,
    pub name: String,
    pub version: String,
    pub description: String,
    pub entry_point: String,
    pub enabled: bool,
    pub config_json: String,
    pub installed_at: String,
}

/// One page of an asset listing.
pub struct PaginatedAssets {
    pub assets: Vec<Asset>,
    pub total: i64,
    pub page: u32,
    pub page_size: u32,
}

/// An asset together with its tags.
pub struct AssetDetail {
    pub asset: Asset,
    pub tags: Vec<Tag>,
}

/// The result of packing a sprite sheet: the registered sheet asset and the
/// descriptor text that was produced alongside it.
pub struct SpritesheetResult {
    pub image_asset: Asset,
    pub descriptor_content: String,
}

/// One action a plugin offers in its manifest.
pub struct PluginAction {
    pub id: String,
    pub label: String,
    pub icon: String,
    pub context: String,
}

/// Whether all libraries carry distinct ids.
pub open spec fn libs_unique(s: Seq<Library>) -> bool {
    forall|i: int, j: int| 0 <= i < j < s.len() ==> (#[trigger] s[i]).id@ != (#[trigger] s[j]).id@
}

/// Whether all assets carry distinct ids.
pub open spec fn assets_unique(s: Seq<Asset>) -> bool {
    forall|i: int, j: int| 0 <= i < j < s.len() ==> (#[trigger] s[i]).id@ != (#[trigger] s[j]).id@
}

/// Whether all tags carry distinct ids.
pub open spec fn tags_unique(s: Seq<Tag>) -> bool {
    forall|i: int, j: int| 0 <= i < j < s.len() ==> (#[trigger] s[i]).id@ != (#[trigger] s[j]).id@
}

/// Whether no tag assignment is recorded twice.
pub open spec fn pairs_unique(s: Seq<(String, String)>) -> bool {
    forall|i: int, j: int|
        0 <= i < j < s.len() ==> ((#[trigger] s[i]).0@, s[i].1@) != ((#[trigger] s[j]).0@, s[j].1@)
}

/// Whether each asset has at most one embedding per model.
pub open spec fn embeddings_unique(s: Seq<Embedding>) -> bool {
    forall|i: int, j: int|
        0 <= i < j < s.len() ==> ((#[trigger] s[i]).asset_id@, s[i].model@) != ((
        #[trigger] s[j]).asset_id@, s[j].model@)
}

/// Whether all stored AI configurations carry distinct ids.
pub open spec fn configs_unique(s: Seq<AiConfig>) -> bool {
    forall|i: int, j: int| 0 <= i < j < s.len() ==> (#[trigger] s[i]).id@ != (#[trigger] s[j]).id@
}

/// Whether a library with this id exists.
pub open spec fn has_library(s: Seq<Library>, id: Seq<char>) -> bool {
    exists|i: int| 0 <= i < s.len() && (#[trigger] s[i]).id@ == id
}

/// Whether an asset with this id exists.
pub open spec fn has_asset(s: Seq<Asset>, id: Seq<char>) -> bool {
    exists|i: int| 0 <= i < s.len() && (#[trigger] s[i]).id@ == id
}

/// Whether a tag with this id exists.
pub open spec fn has_tag(s: Seq<Tag>, id: Seq<char>) -> bool {
    exists|i: int| 0 <= i < s.len() && (#[trigger] s[i]).id@ == id
}

/// Whether an id occurs in a list of ids.
pub open spec fn id_in(ids: Seq<String>, id: Seq<char>) -> bool {
    exists|i: int| 0 <= i < ids.len() && (#[trigger] ids[i])@ == id
}

/// The canonical records of one running library application.
pub struct Store {
    pub libraries: Vec<Library>,
    pub assets: Vec<Asset>,
    pub tags: Vec<Tag>,
    pub asset_tags: Vec<(String, String)>,
    pub embeddings: Vec<Embedding>,
    pub ai_configs: Vec<AiConfig>,
}

impl Store {
    /// The row invariants of the relational schema.
    pub open spec fn wf(&self) -> bool {
        &&& libs_unique(self.libraries@)
        &&& assets_unique(self.assets@)
        &&& tags_unique(self.tags@)
        &&& pairs_unique(self.asset_tags@)
        &&& embeddings_unique(self.embeddings@)
        &&& configs_unique(self.ai_configs@)
    }

    /// An empty store.
    pub fn new() -> (r: Store)
        ensures
            r.wf(),
            r.libraries@.len() == 0,
            r.assets@.len() == 0,
            r.tags@.len() == 0,
            r.asset_tags@.len() == 0,
            r.embeddings@.len() == 0,
            r.ai_configs@.len() == 0,
    {
        Store {
            libraries: Vec::new(),
            assets: Vec::new(),
            tags: Vec::new(),
            asset_tags: Vec::new(),
            embeddings: Vec::new(),
            ai_configs: Vec::new(),
        }
    }

    /// The position of the library with the given id.
    #[verifier::loop_isolation(false)]
    fn find_library(&self, id: &str) -> (r: Option<usize>)
        ensures
            match r {
                Some(i) => i < self.libraries@.len() && self.libraries@[i as int].id@ == id@,
                None => !has_library(self.libraries@, id@),
            },
    {
        let n = self.libraries.len();
        for i in 0..n
            invariant
                forall|j: int| 0 <= j < i ==> (#[trigger] self.libraries@[j]).id@ != id@,
        {
            if str_eq(self.libraries[i].id.as_str(), id) {
                return Some(i);
            }
        }
        None
    }

    /// The position of the asset with the given id.
    #[verifier::loop_isolation(false)]
    fn find_asset(&self, id: &str) -> (r: Option<usize>)
        ensures
            match r {
                Some(i) => i < self.assets@.len() && self.assets@[i as int].id@ == id@,
                None => !has_asset(self.assets@, id@),
            },
    {
        let n = self.assets.len();
        for i in 0..n
            invariant
                forall|j: int| 0 <= j < i ==> (#[trigger] self.assets@[j]).id@ != id@,
        {
            if str_eq(self.assets[i].id.as_str(), id) {
                return Some(i);
            }
        }
        None
    }

    /// Register a library. Exactly when the id is already taken, nothing
    /// changes and the call is rejected.
    pub fn create_library(&mut self, library: Library) -> (r: Result<(), LibError>)
        requires
            old(self).wf(),
        ensures
            final(self).wf(),
            r is Ok <==> !has_library(old(self).libraries@, library.id@),
            r is Ok ==> final(self).libraries@ == old(self).libraries@.push(library),
            r is Err ==> *final(self) == *old(self) && r->Err_0 == LibError::InvalidInput,
            final(self).assets@ == old(self).assets@,
            final(self).tags@ == old(self).tags@,
            final(self).asset_tags@ == old(self).asset_tags@,
            final(self).embeddings@ == old(self).embeddings@,
            final(self).ai_configs@ == old(self).ai_configs@,
    {
        match self.find_library(library.id.as_str()) {
            Some(_) => Err(LibError::InvalidInput),
            None => {
                self.libraries.push(library);
                Ok(())
            },
        }
    }

    /// Look up a library by id; exactly when it is missing, the lookup fails
    /// with `NotFound`.
    pub fn get_library(&self, id: &str) -> (r: Result<&Library, LibError>)
        ensures
            match r {
                Ok(l) => exists|i: int|
                    0 <= i < self.libraries@.len() && *l == self.libraries@[i] && (
                    #[trigger] self.libraries@[i]).id@ == id@,
                Err(e) => e == LibError::NotFound && !has_library(self.libraries@, id@),
            },
    {
        match self.find_library(id) {
            Some(i) => Ok(&self.libraries[i]),
            None => Err(LibError::NotFound),
        }
    }

    /// All libraries, in registration order.
    pub fn list_libraries(&self) -> (r: &Vec<Library>)
        ensures
            r@ == self.libraries@,
    {
        &self.libraries
    }

    /// Remove the library with the given id, if any; other rows are not
    /// touched.
    #[verifier::loop_isolation(false)]
    pub fn delete_library(&mut self, id: &str)
        requires
            old(self).wf(),
        ensures
            final(self).wf(),
            final(self).libraries@ == old(self).libraries@.filter(
                |l: Library| l.id@ != id@,
            ),
            final(self).assets@ == old(self).assets@,
            final(self).tags@ == old(self).tags@,
            final(self).asset_tags@ == old(self).asset_tags@,
            final(self).embeddings@ == old(self).embeddings@,
            final(self).ai_configs@ == old(self).ai_configs@,
    {
        let ghost all = self.libraries@;
        let ghost pred = |l: Library| l.id@ != id@;
        let mut kept: Vec<Library> = Vec::new();
        let n = self.libraries.len();
        proof {
            assert(all.take(0) =~= Seq::<Library>::empty());
            reveal(Seq::filter);
        }
        for i in 0..n
            invariant
                n == all.len(),
                self.libraries@ == all,
                kept@ == all.take(i as int).filter(pred),
        {
            let keep = !str_eq(self.libraries[i].id.as_str(), id);
            let ghost prev = kept@;
            if keep {
                let l = &self.libraries[i];
                kept.push(
                    Library {
                        id: l.id.clone(),
                        name: l.name.clone(),
                        root_path: l.root_path.clone(),
                        created_at: l.created_at.clone(),
                        updated_at: l.updated_at.clone(),
                    },
                );
                proof {
                    assert(kept@ =~= prev.push(all[i as int]));
                }
            }
            proof {
                assert(all.take(i + 1).drop_last() =~= all.take(i as int));
                assert(all.take(i + 1).last() == all[i as int]);
                assert(kept@ == all.take(i + 1).filter(pred));
            }
        }
        proof {
            assert(all.take(n as int) =~= all);
            lemma_filter_keeps_distinct_keys(all, pred, |l: Library| l.id@);
        }
        self.libraries = kept;
    }

    /// Register a new asset row. Exactly when the id is already taken,
    /// nothing changes and the call is rejected.
    pub fn insert_asset(&mut self, asset: Asset) -> (r: Result<(), LibError>)
        requires
            old(self).wf(),
        ensures
            final(self).wf(),
            r is Ok <==> !has_asset(old(self).assets@, asset.id@),
            r is Ok ==> final(self).assets@ == old(self).assets@.push(asset),
            r is Err ==> *final(self) == *old(self) && r->Err_0 == LibError::InvalidInput,
            final(self).libraries@ == old(self).libraries@,
            final(self).tags@ == old(self).tags@,
            final(self).asset_tags@ == old(self).asset_tags@,
            final(self).embeddings@ == old(self).embeddings@,
            final(self).ai_configs@ == old(self).ai_configs@,
    {
        match self.find_asset(asset.id.as_str()) {
            Some(_) => Err(LibError::InvalidInput),
            None => {
                self.assets.push(asset);
                Ok(())
            },
        }
    }

    /// Look up an asset by id; exactly when it is missing, the lookup fails
    /// with `NotFound`.
    pub fn get_asset(&self, id: &str) -> (r: Result<&Asset, LibError>)
        ensures
            match r {
                Ok(a) => exists|i: int|
                    0 <= i < self.assets@.len() && *a == self.assets@[i] && (
                    #[trigger] self.assets@[i]).id@ == id@,
                Err(e) => e == LibError::NotFound && !has_asset(self.assets@, id@),
            },
    {
        match self.find_asset(id) {
            Some(i) => Ok(&self.assets[i]),
            None => Err(LibError::NotFound),
        }
    }

    /// Rename an asset: the matching row keeps every other field; when no row
    /// matches, nothing changes (as a relational update of zero rows).
    #[verifier::loop_isolation(false)]
    pub fn rename_asset(&mut self, id: &str, new_name: &str)
        requires
            old(self).wf(),
        ensures
            final(self).wf(),
            final(self).assets@.len() == old(self).assets@.len(),
            forall|i: int|
                0 <= i < old(self).assets@.len() ==> {
                    let a = #[trigger] old(self).assets@[i];
                    let b = final(self).assets@[i];
                    if a.id@ == id@ {
                        b == Asset { file_name: b.file_name, ..a } && b.file_name@ == new_name@
                    } else {
                        b == a
                    }
                },
            final(self).libraries@ == old(self).libraries@,
            final(self).tags@ == old(self).tags@,
            final(self).asset_tags@ == old(self).asset_tags@,
            final(self).embeddings@ == old(self).embeddings@,
            final(self).ai_configs@ == old(self).ai_configs@,
    {
        let n = self.assets.len();
        let mut i: usize = 0;
        while i < n
            invariant
                i <= n,
                n == self.assets@.len(),
                self.assets@.len() == old(self).assets@.len(),
                forall|j: int|
                    0 <= j < old(self).assets@.len() ==> {
                        let a = #[trigger] old(self).assets@[j];
                        let b = self.assets@[j];
                        if a.id@ == id@ && j < i as int {
                            b == Asset { file_name: b.file_name, ..a } && b.file_name@ == new_name@
                        } else {
                            b == a
                        }
                    },
                libs_unique(self.libraries@),
                assets_unique(self.assets@),
                self.libraries@ == old(self).libraries@,
                self.tags@ == old(self).tags@,
                self.asset_tags@ == old(self).asset_tags@,
                self.embeddings@ == old(self).embeddings@,
                self.ai_configs@ == old(self).ai_configs@,
            decreases n - i,
        {
            if str_eq(self.assets[i].id.as_str(), id) {
                let a = &self.assets[i];
                let updated = Asset {
                    id: a.id.clone(),
                    library_id: a.library_id.clone(),
                    file_name: new_name.to_owned(),
                    original_name: a.original_name.clone(),
                    relative_path: a.relative_path.clone(),
                    file_type: a.file_type.clone(),
                    mime_type: a.mime_type.clone(),
                    file_size: a.file_size,
                    file_hash: a.file_hash.clone(),
                    width: a.width,
                    height: a.height,
                    duration_ms: a.duration_ms,
                    description: a.description.clone(),
                    ai_description: a.ai_description.clone(),
                    thumbnail_path: match &a.thumbnail_path {
                        Some(t) => Some(t.clone()),
                        None => None,
                    },
                    folder_path: a.folder_path.clone(),
                    created_at: a.created_at.clone(),
                    updated_at: a.updated_at.clone(),
                    imported_at: a.imported_at.clone(),
                };
                self.assets.set(i, updated);
            }
            i = i + 1;
        }
    }

    /// Update an asset's description; when no row matches, nothing changes.
    #[verifier::loop_isolation(false)]
    pub fn update_asset_description(&mut self, id: &str, description: &str)
        requires
            old(self).wf(),
        ensures
            final(self).wf(),
            final(self).assets@.len() == old(self).assets@.len(),
            forall|i: int|
                0 <= i < old(self).assets@.len() ==> {
                    let a = #[trigger] old(self).assets@[i];
                    let b = final(self).assets@[i];
                    if a.id@ == id@ {
                        b == Asset { description: b.description, ..a } && b.description@
                            == description@
                    } else {
                        b == a
                    }
                },
            final(self).libraries@ == old(self).libraries@,
            final(self).tags@ == old(self).tags@,
            final(self).asset_tags@ == old(self).asset_tags@,
            final(self).embeddings@ == old(self).embeddings@,
            final(self).ai_configs@ == old(self).ai_configs@,
    {
        let n = self.assets.len();
        let mut i: usize = 0;
        while i < n
            invariant
                i <= n,
                n == self.assets@.len(),
                self.assets@.len() == old(self).assets@.len(),
                forall|j: int|
                    0 <= j < old(self).assets@.len() ==> {
                        let a = #[trigger] old(self).assets@[j];
                        let b = self.assets@[j];
                        if a.id@ == id@ && j < i as int {
                            b == Asset { description: b.description, ..a } && b.description@
                                == description@
                        } else {
                            b == a
                        }
                    },
                libs_unique(self.libraries@),
                assets_unique(self.assets@),
                self.libraries@ == old(self).libraries@,
                self.tags@ == old(self).tags@,
                self.asset_tags@ == old(self).asset_tags@,
                self.embeddings@ == old(self).embeddings@,
                self.ai_configs@ == old(self).ai_configs@,
            decreases n - i,
        {
            if str_eq(self.assets[i].id.as_str(), id) {
                let a = &self.assets[i];
                let updated = Asset {
                    id: a.id.clone(),
                    library_id: a.library_id.clone(),
                    file_name: a.file_name.clone(),
                    original_name: a.original_name.clone(),
                    relative_path: a.relative_path.clone(),
                    file_type: a.file_type.clone(),
                    mime_type: a.mime_type.clone(),
                    file_size: a.file_size,
                    file_hash: a.file_hash.clone(),
                    width: a.width,
                    height: a.height,
                    duration_ms: a.duration_ms,
                    description: description.to_owned(),
                    ai_description: a.ai_description.clone(),
                    thumbnail_path: match &a.thumbnail_path {
                        Some(t) => Some(t.clone()),
                        None => None,
                    },
                    folder_path: a.folder_path.clone(),
                    created_at: a.created_at.clone(),
                    updated_at: a.updated_at.clone(),
                    imported_at: a.imported_at.clone(),
                };
                self.assets.set(i, updated);
            }
            i = i + 1;
        }
    }

    /// Remove every asset whose id is listed; other rows are not touched.
    #[verifier::loop_isolation(false)]
    pub fn delete_assets(&mut self, ids: &Vec<String>)
        requires
            old(self).wf(),
        ensures
            final(self).wf(),
            final(self).assets@ == old(self).assets@.filter(|a: Asset| !id_in(ids@, a.id@)),
            final(self).libraries@ == old(self).libraries@,
            final(self).tags@ == old(self).tags@,
            final(self).asset_tags@ == old(self).asset_tags@,
            final(self).embeddings@ == old(self).embeddings@,
            final(self).ai_configs@ == old(self).ai_configs@,
    {
        let ghost all = self.assets@;
        let ghost pred = |a: Asset| !id_in(ids@, a.id@);
        let mut kept: Vec<Asset> = Vec::new();
        let n = self.assets.len();
        proof {
            assert(all.take(0) =~= Seq::<Asset>::empty());
            reveal(Seq::filter);
        }
        for i in 0..n
            invariant
                n == all.len(),
                self.assets@ == all,
                kept@ == all.take(i as int).filter(pred),
        {
            let listed = id_listed(ids, self.assets[i].id.as_str());
            let ghost prev = kept@;
            if !listed {
                let a = &self.assets[i];
                kept.push(clone_asset(a));
                proof {
                    assert(kept@ =~= prev.push(all[i as int]));
                }
            }
            proof {
                assert(all.take(i + 1).drop_last() =~= all.take(i as int));
                assert(all.take(i + 1).last() == all[i as int]);
                assert(kept@ == all.take(i + 1).filter(pred));
            }
        }
        proof {
            assert(all.take(n as int) =~= all);
            lemma_filter_keeps_distinct_keys(all, pred, |a: Asset| a.id@);
        }
        self.assets = kept;
    }

    /// Move the listed assets to a target virtual folder; other fields and
    /// rows are not touched.
    #[verifier::loop_isolation(false)]
    pub fn move_assets(&mut self, ids: &Vec<String>, target_folder: &str)
        requires
            old(self).wf(),
        ensures
            final(self).wf(),
            final(self).assets@.len() == old(self).assets@.len(),
            forall|i: int|
                0 <= i < old(self).assets@.len() ==> {
                    let a = #[trigger] old(self).assets@[i];
                    let b = final(self).assets@[i];
                    if id_in(ids@, a.id@) {
                        b == Asset { folder_path: b.folder_path, ..a } && b.folder_path@
                            == target_folder@
                    } else {
                        b == a
                    }
                },
            final(self).libraries@ == old(self).libraries@,
            final(self).tags@ == old(self).tags@,
            final(self).asset_tags@ == old(self).asset_tags@,
            final(self).embeddings@ == old(self).embeddings@,
            final(self).ai_configs@ == old(self).ai_configs@,
    {
        let n = self.assets.len();
        let mut i: usize = 0;
        while i < n
            invariant
                i <= n,
                n == self.assets@.len(),
                self.assets@.len() == old(self).assets@.len(),
                forall|j: int|
                    0 <= j < old(self).assets@.len() ==> {
                        let a = #[trigger] old(self).assets@[j];
                        let b = self.assets@[j];
                        if id_in(ids@, a.id@) && j < i as int {
                            b == Asset { folder_path: b.folder_path, ..a } && b.folder_path@
                                == target_folder@
                        } else {
                            b == a
                        }
                    },
                libs_unique(self.libraries@),
                assets_unique(self.assets@),
                self.libraries@ == old(self).libraries@,
                self.tags@ == old(self).tags@,
                self.asset_tags@ == old(self).asset_tags@,
                self.embeddings@ == old(self).embeddings@,
                self.ai_configs@ == old(self).ai_configs@,
            decreases n - i,
        {
            if id_listed(ids, self.assets[i].id.as_str()) {
                let a = &self.assets[i];
                let mut updated = clone_asset(a);
                updated.folder_path = target_folder.to_owned();
                self.assets.set(i, updated);
            }
            i = i + 1;
        }
    }
}

/// Every element of a filtered sequence occurs in the original.
pub proof fn lemma_filter_subset<A>(s: Seq<A>, pred: spec_fn(A) -> bool)
    ensures
        forall|i: int| 0 <= i < s.filter(pred).len() ==> s.contains(#[trigger] s.filter(pred)[i]),
    decreases s.len(),
{
    reveal(Seq::filter);
    if s.len() > 0 {
        let dl = s.drop_last();
        lemma_filter_subset(dl, pred);
        assert forall|i: int| 0 <= i < s.filter(pred).len() implies s.contains(
            #[trigger] s.filter(pred)[i],
        ) by {
            if i < dl.filter(pred).len() {
                assert(dl.contains(dl.filter(pred)[i]));
                let j = choose|j: int| 0 <= j < dl.len() && dl[j] == dl.filter(pred)[i];
                assert(s[j] == s.filter(pred)[i]);
            } else {
                assert(s.filter(pred)[i] == s.last());
                assert(s[s.len() - 1] == s.last());
            }
        }
    }
}

/// Filtering keeps keys distinct: when no two elements share a key, no two
/// filtered elements do either.
pub proof fn lemma_filter_keeps_distinct_keys<A, K>(
    s: Seq<A>,
    pred: spec_fn(A) -> bool,
    key: spec_fn(A) -> K,
)
    requires
        forall|i: int, j: int| 0 <= i < j < s.len() ==> key(#[trigger] s[i]) != key(#[trigger] s[j]),
    ensures
        forall|i: int, j: int|
            0 <= i < j < s.filter(pred).len() ==> key(#[trigger] s.filter(pred)[i]) != key(
                #[trigger] s.filter(pred)[j],
            ),
    decreases s.len(),
{
    reveal(Seq::filter);
    if s.len() > 0 {
        let dl = s.drop_last();
        lemma_filter_keeps_distinct_keys(dl, pred, key);
        lemma_filter_subset(dl, pred);
        assert forall|i: int, j: int|
            0 <= i < j < s.filter(pred).len() implies key(#[trigger] s.filter(pred)[i]) != key(
            #[trigger] s.filter(pred)[j],
        ) by {
            if j < dl.filter(pred).len() {
            } else {
                // j names the appended last element; i names an element of the
                // shorter filtered prefix, which occurs in dl
                assert(s.filter(pred)[j] == s.last());
                assert(dl.contains(dl.filter(pred)[i]));
                let w = choose|w: int| 0 <= w < dl.len() && dl[w] == dl.filter(pred)[i];
                assert(key(s[w]) != key(s[s.len() - 1]));
            }
        }
    }
}

/// Whether an id occurs in a list of ids.
#[verifier::loop_isolation(false)]
pub fn id_listed(ids: &Vec<String>, id: &str) -> (r: bool)
    ensures
        r == id_in(ids@, id@),
{
    let n = ids.len();
    for i in 0..n
        invariant
            forall|j: int| 0 <= j < i ==> (#[trigger] ids@[j])@ != id@,
    {
        if str_eq(ids[i].as_str(), id) {
            return true;
        }
    }
    false
}

/// A field-for-field copy of an asset row.
pub fn clone_asset(a: &Asset) -> (r: Asset)
    ensures
        r == *a,
{
    Asset {
        id: a.id.clone(),
        library_id: a.library_id.clone(),
        file_name: a.file_name.clone(),
        original_name: a.original_name.clone(),
        relative_path: a.relative_path.clone(),
        file_type: a.file_type.clone(),
        mime_type: a.mime_type.clone(),
        file_size: a.file_size,
        file_hash: a.file_hash.clone(),
        width: a.width,
        height: a.height,
        duration_ms: a.duration_ms,
        description: a.description.clone(),
        ai_description: a.ai_description.clone(),
        thumbnail_path: match &a.thumbnail_path {
            Some(t) => Some(t.clone()),
            None => None,
        },
        folder_path: a.folder_path.clone(),
        created_at: a.created_at.clone(),
        updated_at: a.updated_at.clone(),
        imported_at: a.imported_at.clone(),
    }
}


/// Whether some embedding row exists for this asset and model.
pub open spec fn has_embedding(s: Seq<Embedding>, asset_id: Seq<char>, model: Seq<char>) -> bool {
    exists|i: int|
        0 <= i < s.len() && (#[trigger] s[i]).asset_id@ == asset_id && s[i].model@ == model
}

/// Whether an asset with this id exists and belongs to this library.
pub open spec fn asset_in_library(assets: Seq<Asset>, id: Seq<char>, lib: Seq<char>) -> bool {
    exists|i: int|
        0 <= i < assets.len() && (#[trigger] assets[i]).id@ == id && assets[i].library_id@ == lib
}

impl Store {
    /// The position of the embedding row for this asset and model.
    #[verifier::loop_isolation(false)]
    fn find_embedding(&self, asset_id: &str, model: &str) -> (r: Option<usize>)
        ensures
            match r {
                Some(i) => i < self.embeddings@.len() && self.embeddings@[i as int].asset_id@
                    == asset_id@ && self.embeddings@[i as int].model@ == model@,
                None => !has_embedding(self.embeddings@, asset_id@, model@),
            },
    {
        let n = self.embeddings.len();
        for i in 0..n
            invariant
                forall|j: int|
                    0 <= j < i ==> !((#[trigger] self.embeddings@[j]).asset_id@ == asset_id@
                        && self.embeddings@[j].model@ == model@),
        {
            if str_eq(self.embeddings[i].asset_id.as_str(), asset_id) && str_eq(
                self.embeddings[i].model.as_str(),
                model,
            ) {
                return Some(i);
            }
        }
        None
    }

    /// Store an embedding vector for an asset under a model: at most one row
    /// per (asset, model) pair exists, so re-saving replaces the earlier row
    /// in place; otherwise a new row is appended. No other row changes.
    #[verifier::loop_isolation(false)]
    pub fn save_embedding(&mut self, id: String, asset_id: &str, model: &str, vector: Vec<u8>)
        requires
            old(self).wf(),
        ensures
            final(self).wf(),
            has_embedding(final(self).embeddings@, asset_id@, model@),
            ({
                let olds = old(self).embeddings@;
                let news = final(self).embeddings@;
                if has_embedding(olds, asset_id@, model@) {
                    &&& news.len() == olds.len()
                    &&& forall|j: int|
                        0 <= j < olds.len() ==> {
                            let e = #[trigger] olds[j];
                            if e.asset_id@ == asset_id@ && e.model@ == model@ {
                                stored_row(news[j], id@, asset_id@, model@, vector@)
                            } else {
                                news[j] == e
                            }
                        }
                } else {
                    &&& news.len() == olds.len() + 1
                    &&& news.take(olds.len() as int) == olds
                    &&& stored_row(news.last(), id@, asset_id@, model@, vector@)
                }
            }),
            final(self).libraries@ == old(self).libraries@,
            final(self).assets@ == old(self).assets@,
            final(self).tags@ == old(self).tags@,
            final(self).asset_tags@ == old(self).asset_tags@,
            final(self).ai_configs@ == old(self).ai_configs@,
    {
        let row = Embedding {
            id,
            asset_id: asset_id.to_owned(),
            model: model.to_owned(),
            vector,
            created_at: String::new(),
        };
        match self.find_embedding(asset_id, model) {
            Some(i) => {
                self.embeddings.set(i, row);
                proof {
                    assert(self.embeddings@[i as int].asset_id@ == asset_id@
                        && self.embeddings@[i as int].model@ == model@);
                }
            },
            None => {
                self.embeddings.push(row);
                proof {
                    let last = self.embeddings@.len() - 1;
                    assert(self.embeddings@[last].asset_id@ == asset_id@
                        && self.embeddings@[last].model@ == model@);
                    assert(self.embeddings@.take(old(self).embeddings@.len() as int)
                        =~= old(self).embeddings@);
                }
            },
        }
    }

    /// Whether an asset exists in the given library.
    #[verifier::loop_isolation(false)]
    fn asset_lives_in(&self, id: &str, library_id: &str) -> (r: bool)
        ensures
            r == asset_in_library(self.assets@, id@, library_id@),
    {
        let n = self.assets.len();
        for i in 0..n
            invariant
                forall|j: int|
                    0 <= j < i ==> !((#[trigger] self.assets@[j]).id@ == id@
                        && self.assets@[j].library_id@ == library_id@),
        {
            if str_eq(self.assets[i].id.as_str(), id) && str_eq(
                self.assets[i].library_id.as_str(),
                library_id,
            ) {
                return true;
            }
        }
        false
    }

    /// All embeddings stored under a model for assets of one library, as
    /// (asset id, vector bytes) in storage order.
    #[verifier::loop_isolation(false)]
    pub fn get_all_embeddings(&self, library_id: &str, model: &str) -> (r: Vec<(String, Vec<u8>)>)
        ensures
            ({
                let kept = self.embeddings@.filter(
                    |e: Embedding|
                        e.model@ == model@ && asset_in_library(
                            self.assets@,
                            e.asset_id@,
                            library_id@,
                        ),
                );
                &&& r@.len() == kept.len()
                &&& forall|i: int|
                    0 <= i < kept.len() ==> (#[trigger] r@[i]).0@ == kept[i].asset_id@
                        && r@[i].1@ == kept[i].vector@
            }),
    {
        let ghost pred = |e: Embedding|
            e.model@ == model@ && asset_in_library(self.assets@, e.asset_id@, library_id@);
        let ghost all = self.embeddings@;
        let mut r: Vec<(String, Vec<u8>)> = Vec::new();
        let n = self.embeddings.len();
        proof {
            assert(all.take(0) =~= Seq::<Embedding>::empty());
            reveal(Seq::filter);
        }
        for i in 0..n
            invariant
                n == all.len(),
                self.embeddings@ == all,
                r@.len() == all.take(i as int).filter(pred).len(),
                forall|k: int|
                    0 <= k < r@.len() ==> (#[trigger] r@[k]).0@ == all.take(i as int).filter(
                        pred,
                    )[k].asset_id@ && r@[k].1@ == all.take(i as int).filter(pred)[k].vector@,
        {
            let e = &self.embeddings[i];
            let hit = str_eq(e.model.as_str(), model) && self.asset_lives_in(
                e.asset_id.as_str(),
                library_id,
            );
            proof {
                assert(all.take(i + 1).drop_last() =~= all.take(i as int));
                assert(all.take(i + 1).last() == all[i as int]);
            }
            if hit {
                r.push((e.asset_id.clone(), crate::raster::copy_bytes(&e.vector)));
                proof {
                    assert(all.take(i + 1).filter(pred) == all.take(i as int).filter(pred).push(
                        all[i as int],
                    ));
                }
            } else {
                proof {
                    assert(all.take(i + 1).filter(pred) == all.take(i as int).filter(pred));
                }
            }
        }
        proof {
            assert(all.take(n as int) =~= all);
        }
        r
    }

    /// Save the AI collaborator configuration and make it the only active
    /// one: every other stored configuration is deactivated; a configuration
    /// with the same id is replaced, otherwise the new one is appended.
    #[verifier::loop_isolation(false)]
    pub fn save_ai_config(&mut self, config: AiConfig)
        requires
            old(self).wf(),
        ensures
            final(self).wf(),
            ({
                let olds = old(self).ai_configs@;
                let news = final(self).ai_configs@;
                if exists|i: int| 0 <= i < olds.len() && (#[trigger] olds[i]).id@ == config.id@ {
                    &&& news.len() == olds.len()
                    &&& forall|j: int|
                        0 <= j < olds.len() ==> {
                            let c = #[trigger] olds[j];
                            if c.id@ == config.id@ {
                                news[j] == config
                            } else {
                                news[j] == AiConfig { is_active: false, ..c }
                            }
                        }
                } else {
                    &&& news.len() == olds.len() + 1
                    &&& forall|j: int|
                        0 <= j < olds.len() ==> #[trigger] news[j] == AiConfig {
                            is_active: false,
                            ..olds[j]
                        }
                    &&& news.last() == config
                }
            }),
            final(self).libraries@ == old(self).libraries@,
            final(self).assets@ == old(self).assets@,
            final(self).tags@ == old(self).tags@,
            final(self).asset_tags@ == old(self).asset_tags@,
            final(self).embeddings@ == old(self).embeddings@,
    {
        let n = self.ai_configs.len();
        let mut found = false;
        let mut i: usize = 0;
        let ghost olds = self.ai_configs@;
        while i < n
            invariant
                i <= n,
                n == self.ai_configs@.len(),
                old(self).ai_configs@ == olds,
                self.ai_configs@.len() == olds.len(),
                found <==> exists|j: int|
                    0 <= j < i as int && (#[trigger] olds[j]).id@ == config.id@,
                forall|j: int|
                    0 <= j < olds.len() ==> {
                        let c = #[trigger] olds[j];
                        if j < i as int {
                            if c.id@ == config.id@ {
                                self.ai_configs@[j] == config
                            } else {
                                self.ai_configs@[j] == AiConfig { is_active: false, ..c }
                            }
                        } else {
                            self.ai_configs@[j] == c
                        }
                    },
                forall|j: int|
                    0 <= j < olds.len() ==> (#[trigger] self.ai_configs@[j]).id@ == olds[j].id@,
                libs_unique(self.libraries@),
                assets_unique(self.assets@),
                tags_unique(self.tags@),
                pairs_unique(self.asset_tags@),
                embeddings_unique(self.embeddings@),
                configs_unique(self.ai_configs@),
                self.libraries@ == old(self).libraries@,
                self.assets@ == old(self).assets@,
                self.tags@ == old(self).tags@,
                self.asset_tags@ == old(self).asset_tags@,
                self.embeddings@ == old(self).embeddings@,
            decreases n - i,
        {
            let c = &self.ai_configs[i];
            if str_eq(c.id.as_str(), config.id.as_str()) {
                let replacement = clone_ai_config(&config);
                self.ai_configs.set(i, replacement);
                found = true;
                proof {
                    assert(olds[i as int].id@ == config.id@);
                }
            } else {
                let mut deactivated = clone_ai_config(c);
                deactivated.is_active = false;
                self.ai_configs.set(i, deactivated);
                proof {
                    assert(olds[i as int].id@ != config.id@);
                }
            }
            i = i + 1;
        }
        if !found {
            self.ai_configs.push(config);
            proof {
                assert forall|a: int, b: int|
                    0 <= a < b < self.ai_configs@.len() implies (
                #[trigger] self.ai_configs@[a]).id@ != (#[trigger] self.ai_configs@[b]).id@ by {
                    if b == self.ai_configs@.len() - 1 {
                        assert(olds[a].id@ != config.id@);
                        if olds[a].id@ == self.ai_configs@[a].id@ {
                        }
                    }
                }
            }
        }
    }

    /// The active AI configuration: the first stored row that is marked
    /// active, if any.
    #[verifier::loop_isolation(false)]
    pub fn get_active_ai_config(&self) -> (r: Option<&AiConfig>)
        ensures
            match r {
                Some(c) => exists|i: int|
                    0 <= i < self.ai_configs@.len() && *c == self.ai_configs@[i] && (
                    #[trigger] self.ai_configs@[i]).is_active && forall|j: int|
                        0 <= j < i ==> !(#[trigger] self.ai_configs@[j]).is_active,
                None => forall|j: int|
                    0 <= j < self.ai_configs@.len() ==> !(#[trigger] self.ai_configs@[j]).is_active,
            },
    {
        let n = self.ai_configs.len();
        for i in 0..n
            invariant
                forall|j: int| 0 <= j < i ==> !(#[trigger] self.ai_configs@[j]).is_active,
        {
            if self.ai_configs[i].is_active {
                return Some(&self.ai_configs[i]);
            }
        }
        None
    }
}

/// Whether an embedding row holds exactly the given fields.
pub open spec fn stored_row(
    e: Embedding,
    id: Seq<char>,
    asset_id: Seq<char>,
    model: Seq<char>,
    vector: Seq<u8>,
) -> bool {
    e.id@ == id && e.asset_id@ == asset_id && e.model@ == model && e.vector@ == vector
}

/// A field-for-field copy of an AI configuration row.
pub fn clone_ai_config(c: &AiConfig) -> (r: AiConfig)
    ensures
        r == *c,
{
    AiConfig {
        id: c.id.clone(),
        provider_name: c.provider_name.clone(),
        api_endpoint: c.api_endpoint.clone(),
        api_key: c.api_key.clone(),
        model_id: c.model_id.clone(),
        embedding_model: c.embedding_model.clone(),
        is_active: c.is_active,
        created_at: c.created_at.clone(),
    }
}

/// The characters of a full-text phrase query: the phrase is wrapped in
/// double quotes and every quote inside it is doubled, so the query matches
/// the words as one quoted phrase.
pub open spec fn spec_fts_phrase(s: Seq<char>) -> Seq<char>
    decreases s.len(),
{
    if s.len() == 0 {
        Seq::<char>::empty()
    } else {
        spec_fts_phrase(s.drop_last()) + (if s.last() == '"' {
            seq!['"', '"']
        } else {
            seq![s.last()]
        })
    }
}

/// Build the quoted-phrase form of a keyword query for the full-text index:
/// the whole query becomes one quoted phrase, with embedded quotes doubled.
#[verifier::loop_isolation(false)]
pub fn fts_phrase_query(query: &str) -> (r: String)
    ensures
        r@ == seq!['"'] + spec_fts_phrase(query@) + seq!['"'],
{
    let mut r = String::new();
    crate::strings::string_push(&mut r, '"');
    let cs = crate::strings::str_to_chars(query);
    let n = cs.len();
    for i in 0..n
        invariant
            r@ =~= seq!['"'] + spec_fts_phrase(query@.take(i as int)),
    {
        crate::strings::string_push(&mut r, cs[i]);
        if cs[i] == '"' {
            crate::strings::string_push(&mut r, '"');
        }
        proof {
            assert(query@.take(i + 1).drop_last() =~= query@.take(i as int));
            assert(query@.take(i + 1).last() == query@[i as int]);
            assert(r@ =~= seq!['"'] + spec_fts_phrase(query@.take(i + 1)));
        }
    }
    proof {
        assert(query@.take(n as int) =~= query@);
    }
    crate::strings::string_push(&mut r, '"');
    r
}


/// Whether the pair (asset, tag) is recorded.
pub open spec fn pair_in(pairs: Seq<(String, String)>, asset_id: Seq<char>, tag_id: Seq<char>) -> bool {
    exists|i: int|
        0 <= i < pairs.len() && (#[trigger] pairs[i]).0@ == asset_id && pairs[i].1@ == tag_id
}

/// The views of the assignment rows: which allocation carries the characters
/// is irrelevant to the relation they record.
pub open spec fn pairs_views(s: Seq<(String, String)>) -> Seq<(Seq<char>, Seq<char>)> {
    s.map_values(|p: (String, String)| (p.0@, p.1@))
}

/// Whether a pair of views is recorded.
pub open spec fn vpair_in(views: Seq<(Seq<char>, Seq<char>)>, a: Seq<char>, t: Seq<char>) -> bool {
    exists|i: int| 0 <= i < views.len() && #[trigger] views[i] == (a, t)
}

/// The recorded assignments after adding each listed tag in turn, skipping
/// pairs that are already recorded.
pub open spec fn spec_assign_fold(
    views: Seq<(Seq<char>, Seq<char>)>,
    asset_id: Seq<char>,
    tag_ids: Seq<Seq<char>>,
) -> Seq<(Seq<char>, Seq<char>)>
    decreases tag_ids.len(),
{
    if tag_ids.len() == 0 {
        views
    } else if vpair_in(views, asset_id, tag_ids.first()) {
        spec_assign_fold(views, asset_id, tag_ids.drop_first())
    } else {
        spec_assign_fold(views.push((asset_id, tag_ids.first())), asset_id, tag_ids.drop_first())
    }
}

/// The views of a list of tag ids.
pub open spec fn id_views(ids: Seq<String>) -> Seq<Seq<char>> {
    ids.map_values(|s: String| s@)
}

/// Whether a tag of this library with this name exists at a position.
pub open spec fn tag_named_at(tags: Seq<Tag>, lib: Seq<char>, name: Seq<char>, i: int) -> bool {
    0 <= i < tags.len() && tags[i].library_id@ == lib && tags[i].name@ == name
}

impl Store {
    /// Register a tag row. Exactly when the id is already taken, nothing
    /// changes and the call is rejected.
    pub fn create_tag(&mut self, tag: Tag) -> (r: Result<(), LibError>)
        requires
            old(self).wf(),
        ensures
            final(self).wf(),
            r is Ok <==> !has_tag(old(self).tags@, tag.id@),
            r is Ok ==> final(self).tags@ == old(self).tags@.push(tag),
            r is Err ==> *final(self) == *old(self) && r->Err_0 == LibError::InvalidInput,
            final(self).libraries@ == old(self).libraries@,
            final(self).assets@ == old(self).assets@,
            final(self).asset_tags@ == old(self).asset_tags@,
            final(self).embeddings@ == old(self).embeddings@,
            final(self).ai_configs@ == old(self).ai_configs@,
    {
        match self.find_tag(tag.id.as_str()) {
            Some(_) => Err(LibError::InvalidInput),
            None => {
                self.tags.push(tag);
                Ok(())
            },
        }
    }

    /// The position of the tag with the given id.
    #[verifier::loop_isolation(false)]
    fn find_tag(&self, id: &str) -> (r: Option<usize>)
        ensures
            match r {
                Some(i) => i < self.tags@.len() && self.tags@[i as int].id@ == id@,
                None => !has_tag(self.tags@, id@),
            },
    {
        let n = self.tags.len();
        for i in 0..n
            invariant
                forall|j: int| 0 <= j < i ==> (#[trigger] self.tags@[j]).id@ != id@,
        {
            if str_eq(self.tags[i].id.as_str(), id) {
                return Some(i);
            }
        }
        None
    }

    /// The position of the first tag of this library with this name.
    #[verifier::loop_isolation(false)]
    fn find_tag_by_name(&self, library_id: &str, name: &str) -> (r: Option<usize>)
        ensures
            match r {
                Some(i) => tag_named_at(self.tags@, library_id@, name@, i as int) && forall|j: int|
                    0 <= j < i as int ==> !tag_named_at(self.tags@, library_id@, name@, j),
                None => forall|j: int|
                    0 <= j < self.tags@.len() ==> !tag_named_at(self.tags@, library_id@, name@, j),
            },
    {
        let n = self.tags.len();
        for i in 0..n
            invariant
                forall|j: int| 0 <= j < i ==> !tag_named_at(self.tags@, library_id@, name@, j),
        {
            if str_eq(self.tags[i].library_id.as_str(), library_id) && str_eq(
                self.tags[i].name.as_str(),
                name,
            ) {
                return Some(i);
            }
        }
        None
    }

    /// Find the tag of this library with this name, or create it with the
    /// default color, empty category and the given id. The returned tag is
    /// the existing first match, or the newly created row; creation fails
    /// exactly when the fresh id is already taken.
    pub fn get_or_create_tag(&mut self, new_id: String, library_id: &str, name: &str, is_ai: bool)
        -> (r: Result<Tag, LibError>)
        requires
            old(self).wf(),
        ensures
            final(self).wf(),
            match r {
                Ok(tag) => {
                    &&& tag.library_id@ == library_id@
                    &&& tag.name@ == name@
                    &&& exists|w: int|
                        0 <= w < final(self).tags@.len() && #[trigger] final(self).tags@[w] == tag
                    &&& if exists|j: int| tag_named_at(old(self).tags@, library_id@, name@, j) {
                        *final(self) == *old(self)
                    } else {
                        final(self).tags@ == old(self).tags@.push(tag) && tag.id@ == new_id@
                            && tag.is_ai == is_ai
                    }
                },
                Err(e) => e == LibError::InvalidInput && *final(self) == *old(self),
            },
            r is Err ==> !(exists|j: int| tag_named_at(old(self).tags@, library_id@, name@, j))
                && has_tag(old(self).tags@, new_id@),
            final(self).libraries@ == old(self).libraries@,
            final(self).assets@ == old(self).assets@,
            final(self).asset_tags@ == old(self).asset_tags@,
            final(self).embeddings@ == old(self).embeddings@,
            final(self).ai_configs@ == old(self).ai_configs@,
    {
        match self.find_tag_by_name(library_id, name) {
            Some(i) => {
                let t = clone_tag(&self.tags[i]);
                proof {
                    assert(tag_named_at(self.tags@, library_id@, name@, i as int));
                }
                Ok(t)
            },
            None => {
                let tag = Tag {
                    id: new_id,
                    library_id: library_id.to_owned(),
                    name: name.to_owned(),
                    color: "#808080".to_owned(),
                    category: "".to_owned(),
                    is_ai,
                    created_at: String::new(),
                };
                let out = clone_tag(&tag);
                match self.create_tag(tag) {
                    Ok(()) => {
                        proof {
                            let w = final(self).tags@.len() - 1;
                            assert(final(self).tags@[w] == out);
                        }
                        Ok(out)
                    },
                    Err(e) => Err(e),
                }
            },
        }
    }

    /// Rename a tag; when no row matches, nothing changes.
    #[verifier::loop_isolation(false)]
    pub fn rename_tag(&mut self, id: &str, new_name: &str)
        requires
            old(self).wf(),
        ensures
            final(self).wf(),
            final(self).tags@.len() == old(self).tags@.len(),
            forall|i: int|
                0 <= i < old(self).tags@.len() ==> {
                    let a = #[trigger] old(self).tags@[i];
                    let b = final(self).tags@[i];
                    if a.id@ == id@ {
                        b == Tag { name: b.name, ..a } && b.name@ == new_name@
                    } else {
                        b == a
                    }
                },
            final(self).libraries@ == old(self).libraries@,
            final(self).assets@ == old(self).assets@,
            final(self).asset_tags@ == old(self).asset_tags@,
            final(self).embeddings@ == old(self).embeddings@,
            final(self).ai_configs@ == old(self).ai_configs@,
    {
        let n = self.tags.len();
        let mut i: usize = 0;
        while i < n
            invariant
                i <= n,
                n == self.tags@.len(),
                self.tags@.len() == old(self).tags@.len(),
                forall|j: int|
                    0 <= j < old(self).tags@.len() ==> {
                        let a = #[trigger] old(self).tags@[j];
                        let b = self.tags@[j];
                        if a.id@ == id@ && j < i as int {
                            b == Tag { name: b.name, ..a } && b.name@ == new_name@
                        } else {
                            b == a
                        }
                    },
                libs_unique(self.libraries@),
                assets_unique(self.assets@),
                tags_unique(self.tags@),
                pairs_unique(self.asset_tags@),
                embeddings_unique(self.embeddings@),
                configs_unique(self.ai_configs@),
                self.libraries@ == old(self).libraries@,
                self.assets@ == old(self).assets@,
                self.asset_tags@ == old(self).asset_tags@,
                self.embeddings@ == old(self).embeddings@,
                self.ai_configs@ == old(self).ai_configs@,
            decreases n - i,
        {
            if str_eq(self.tags[i].id.as_str(), id) {
                let a = &self.tags[i];
                let updated = Tag {
                    id: a.id.clone(),
                    library_id: a.library_id.clone(),
                    name: new_name.to_owned(),
                    color: a.color.clone(),
                    category: a.category.clone(),
                    is_ai: a.is_ai,
                    created_at: a.created_at.clone(),
                };
                self.tags.set(i, updated);
            }
            i = i + 1;
        }
    }

    /// Remove the tag with the given id, if any; recorded assignments are not
    /// touched.
    #[verifier::loop_isolation(false)]
    pub fn delete_tag(&mut self, id: &str)
        requires
            old(self).wf(),
        ensures
            final(self).wf(),
            final(self).tags@ == old(self).tags@.filter(|t: Tag| t.id@ != id@),
            final(self).libraries@ == old(self).libraries@,
            final(self).assets@ == old(self).assets@,
            final(self).asset_tags@ == old(self).asset_tags@,
            final(self).embeddings@ == old(self).embeddings@,
            final(self).ai_configs@ == old(self).ai_configs@,
    {
        let ghost all = self.tags@;
        let ghost pred = |t: Tag| t.id@ != id@;
        let mut kept: Vec<Tag> = Vec::new();
        let n = self.tags.len();
        proof {
            assert(all.take(0) =~= Seq::<Tag>::empty());
            reveal(Seq::filter);
        }
        for i in 0..n
            invariant
                n == all.len(),
                self.tags@ == all,
                kept@ == all.take(i as int).filter(pred),
        {
            let keep = !str_eq(self.tags[i].id.as_str(), id);
            let ghost prev = kept@;
            if keep {
                kept.push(clone_tag(&self.tags[i]));
                proof {
                    assert(kept@ =~= prev.push(all[i as int]));
                }
            }
            proof {
                assert(all.take(i + 1).drop_last() =~= all.take(i as int));
                assert(all.take(i + 1).last() == all[i as int]);
                assert(kept@ == all.take(i + 1).filter(pred));
            }
        }
        proof {
            assert(all.take(n as int) =~= all);
            lemma_filter_keeps_distinct_keys(all, pred, |t: Tag| t.id@);
        }
        self.tags = kept;
    }

    /// Whether the assignment (asset, tag) is recorded.
    #[verifier::loop_isolation(false)]
    fn pair_exists(&self, asset_id: &str, tag_id: &str) -> (r: bool)
        ensures
            r == pair_in(self.asset_tags@, asset_id@, tag_id@),
    {
        let n = self.asset_tags.len();
        for i in 0..n
            invariant
                forall|j: int|
                    0 <= j < i ==> !((#[trigger] self.asset_tags@[j]).0@ == asset_id@
                        && self.asset_tags@[j].1@ == tag_id@),
        {
            if str_eq(self.asset_tags[i].0.as_str(), asset_id) && str_eq(
                self.asset_tags[i].1.as_str(),
                tag_id,
            ) {
                return true;
            }
        }
        false
    }

    /// Record the listed tags on an asset, in order, skipping assignments
    /// that already exist (so no pair is ever recorded twice).
    #[verifier::loop_isolation(false)]
    pub fn assign_tags(&mut self, asset_id: &str, tag_ids: &Vec<String>)
        requires
            old(self).wf(),
        ensures
            final(self).wf(),
            pairs_views(final(self).asset_tags@) == spec_assign_fold(
                pairs_views(old(self).asset_tags@),
                asset_id@,
                id_views(tag_ids@),
            ),
            old(self).asset_tags@.len() <= final(self).asset_tags@.len(),
            final(self).asset_tags@.take(old(self).asset_tags@.len() as int) == old(
                self,
            ).asset_tags@,
            forall|k: int|
                0 <= k < tag_ids@.len() ==> pair_in(
                    final(self).asset_tags@,
                    asset_id@,
                    (#[trigger] tag_ids@[k])@,
                ),
            final(self).libraries@ == old(self).libraries@,
            final(self).assets@ == old(self).assets@,
            final(self).tags@ == old(self).tags@,
            final(self).embeddings@ == old(self).embeddings@,
            final(self).ai_configs@ == old(self).ai_configs@,
    {
        let n = tag_ids.len();
        let mut k: usize = 0;
        proof {
            assert(id_views(tag_ids@).skip(0) =~= id_views(tag_ids@));
        }
        while k < n
            invariant
                k <= n,
                n == tag_ids@.len(),
                libs_unique(self.libraries@),
                assets_unique(self.assets@),
                tags_unique(self.tags@),
                pairs_unique(self.asset_tags@),
                embeddings_unique(self.embeddings@),
                configs_unique(self.ai_configs@),
                spec_assign_fold(pairs_views(old(self).asset_tags@), asset_id@, id_views(tag_ids@))
                    == spec_assign_fold(
                    pairs_views(self.asset_tags@),
                    asset_id@,
                    id_views(tag_ids@).skip(k as int),
                ),
                old(self).asset_tags@.len() <= self.asset_tags@.len(),
                self.asset_tags@.take(old(self).asset_tags@.len() as int) == old(self).asset_tags@,
                forall|q: int|
                    0 <= q < k as int ==> pair_in(
                        self.asset_tags@,
                        asset_id@,
                        (#[trigger] tag_ids@[q])@,
                    ),
                self.libraries@ == old(self).libraries@,
                self.assets@ == old(self).assets@,
                self.tags@ == old(self).tags@,
                self.embeddings@ == old(self).embeddings@,
                self.ai_configs@ == old(self).ai_configs@,
            decreases n - k,
        {
            proof {
                assert(id_views(tag_ids@).skip(k as int).first() == tag_ids@[k as int]@);
                assert(id_views(tag_ids@).skip(k as int).drop_first() =~= id_views(
                    tag_ids@,
                ).skip(k + 1));
                assert(pair_in(self.asset_tags@, asset_id@, tag_ids@[k as int]@) == vpair_in(
                    pairs_views(self.asset_tags@),
                    asset_id@,
                    tag_ids@[k as int]@,
                )) by {
                    lemma_pair_in_views(self.asset_tags@, asset_id@, tag_ids@[k as int]@);
                }
            }
            let present = self.pair_exists(asset_id, tag_ids[k].as_str());
            let ghost prev = self.asset_tags@;
            if !present {
                self.asset_tags.push((asset_id.to_owned(), tag_ids[k].clone()));
                proof {
                    assert(pairs_views(self.asset_tags@) =~= pairs_views(prev).push(
                        (asset_id@, tag_ids@[k as int]@),
                    ));
                    assert(self.asset_tags@.take(old(self).asset_tags@.len() as int) =~= prev.take(
                        old(self).asset_tags@.len() as int,
                    ));
                    assert(self.asset_tags@[prev.len() as int].0@ == asset_id@
                        && self.asset_tags@[prev.len() as int].1@ == tag_ids@[k as int]@);
                    assert forall|a: int, b: int|
                        0 <= a < b < self.asset_tags@.len() implies ((
                    #[trigger] self.asset_tags@[a]).0@, self.asset_tags@[a].1@) != ((
                    #[trigger] self.asset_tags@[b]).0@, self.asset_tags@[b].1@) by {
                        if b == self.asset_tags@.len() - 1 {
                            assert(!pair_in(prev, asset_id@, tag_ids@[k as int]@));
                            assert(self.asset_tags@[a] == prev[a]);
                        }
                    }
                }
            }
            proof {
                assert forall|q: int|
                    0 <= q < k + 1 implies pair_in(
                    self.asset_tags@,
                    asset_id@,
                    (#[trigger] tag_ids@[q])@,
                ) by {
                    if q < k as int {
                        let w = choose|w: int|
                            0 <= w < prev.len() && (#[trigger] prev[w]).0@ == asset_id@
                                && prev[w].1@ == tag_ids@[q]@;
                        assert(self.asset_tags@[w] == prev[w]);
                    } else {
                        if present {
                        } else {
                            assert(self.asset_tags@[prev.len() as int].0@ == asset_id@);
                        }
                    }
                }
            }
            k = k + 1;
        }
        proof {
            assert(id_views(tag_ids@).skip(n as int) =~= Seq::<Seq<char>>::empty());
        }
    }
}

/// The record relation only reads views.
pub proof fn lemma_pair_in_views(pairs: Seq<(String, String)>, a: Seq<char>, t: Seq<char>)
    ensures
        pair_in(pairs, a, t) == vpair_in(pairs_views(pairs), a, t),
{
    if pair_in(pairs, a, t) {
        let w = choose|i: int|
            0 <= i < pairs.len() && (#[trigger] pairs[i]).0@ == a && pairs[i].1@ == t;
        assert(pairs_views(pairs)[w] == (a, t));
    }
    if vpair_in(pairs_views(pairs), a, t) {
        let w = choose|i: int|
            0 <= i < pairs_views(pairs).len() && #[trigger] pairs_views(pairs)[i] == (a, t);
        assert((pairs[w].0@, pairs[w].1@) == (a, t));
        assert(pairs[w].0@ == a && pairs[w].1@ == t);
    }
}

/// A field-for-field copy of a tag row.
pub fn clone_tag(t: &Tag) -> (r: Tag)
    ensures
        r == *t,
{
    Tag {
        id: t.id.clone(),
        library_id: t.library_id.clone(),
        name: t.name.clone(),
        color: t.color.clone(),
        category: t.category.clone(),
        is_ai: t.is_ai,
        created_at: t.created_at.clone(),
    }
}


/// Whether a tag list is sorted by name, lexicographically.
pub open spec fn tags_sorted_by_name(s: Seq<Tag>) -> bool {
    forall|i: int, j: int|
        0 <= i < j < s.len() ==> lex_le((#[trigger] s[i]).name@, (#[trigger] s[j]).name@)
}

/// Sort a tag list by name. The result holds exactly the same tags.
#[verifier::loop_isolation(false)]
pub fn sort_tags(list: Vec<Tag>) -> (r: Vec<Tag>)
    ensures
        r@.to_multiset() == list@.to_multiset(),
        tags_sorted_by_name(r@),
{
    let mut sorted: Vec<Tag> = Vec::new();
    let m = list.len();
    let ghost all = list@;
    proof {
        assert(all.take(0) =~= Seq::<Tag>::empty());
        assert(sorted@ =~= Seq::<Tag>::empty());
        assert(sorted@.to_multiset() =~= all.take(0).to_multiset());
    }
    for k in 0..m
        invariant
            m == all.len(),
            list@ == all,
            sorted@.to_multiset() == all.take(k as int).to_multiset(),
            tags_sorted_by_name(sorted@),
    {
        let f = &list[k];
        let mut pos: usize = 0;
        while pos < sorted.len() && !str_le(f.name.as_str(), sorted[pos].name.as_str())
            invariant
                pos <= sorted@.len(),
                forall|i: int| 0 <= i < pos ==> lex_le((#[trigger] sorted@[i]).name@, f.name@),
            decreases sorted@.len() - pos,
        {
            proof {
                lemma_lex_le_total(f.name@, sorted@[pos as int].name@);
            }
            pos = pos + 1;
        }
        let ghost before = sorted@;
        sorted.insert(pos, clone_tag(f));
        proof {
            vstd::seq_lib::to_multiset_insert(before, pos as int, sorted@[pos as int]);
            vstd::seq_lib::to_multiset_build(all.take(k as int), all[k as int]);
            assert(all.take(k + 1) =~= all.take(k as int).push(all[k as int]));
            assert(sorted@[pos as int] == all[k as int]);
            assert forall|i: int, j: int| 0 <= i < j < sorted@.len() implies lex_le(
                (#[trigger] sorted@[i]).name@,
                (#[trigger] sorted@[j]).name@,
            ) by {
                if i < pos && j == pos {
                } else if i == pos && j > pos {
                    assert(sorted@[j] == before[j - 1]);
                    if j > pos + 1 {
                        assert(lex_le(before[pos as int].name@, before[j - 1].name@));
                        lemma_lex_le_trans(
                            sorted@[pos as int].name@,
                            before[pos as int].name@,
                            before[j - 1].name@,
                        );
                    }
                } else {
                }
            }
        }
    }
    proof {
        assert(all.take(m as int) =~= all);
    }
    sorted
}

/// How many assets of a library sit directly in a folder path.
pub open spec fn count_in_folder(assets: Seq<Asset>, lib: Seq<char>, path: Seq<char>) -> int {
    assets.filter(|a: Asset| a.library_id@ == lib && a.folder_path@ == path).len() as int
}

/// Whether some asset of the library sits directly in the folder path.
pub open spec fn folder_of_some_asset(assets: Seq<Asset>, lib: Seq<char>, path: Seq<char>) -> bool {
    exists|i: int|
        0 <= i < assets.len() && (#[trigger] assets[i]).library_id@ == lib
            && assets[i].folder_path@ == path
}

impl Store {
    /// Remove the listed tags from an asset; other assignments are not
    /// touched.
    #[verifier::loop_isolation(false)]
    pub fn remove_tags(&mut self, asset_id: &str, tag_ids: &Vec<String>)
        requires
            old(self).wf(),
        ensures
            final(self).wf(),
            final(self).asset_tags@ == old(self).asset_tags@.filter(
                |p: (String, String)| !(p.0@ == asset_id@ && id_in(tag_ids@, p.1@)),
            ),
            final(self).libraries@ == old(self).libraries@,
            final(self).assets@ == old(self).assets@,
            final(self).tags@ == old(self).tags@,
            final(self).embeddings@ == old(self).embeddings@,
            final(self).ai_configs@ == old(self).ai_configs@,
    {
        let ghost all = self.asset_tags@;
        let ghost pred = |p: (String, String)| !(p.0@ == asset_id@ && id_in(tag_ids@, p.1@));
        let mut kept: Vec<(String, String)> = Vec::new();
        let n = self.asset_tags.len();
        proof {
            assert(all.take(0) =~= Seq::<(String, String)>::empty());
            reveal(Seq::filter);
        }
        for i in 0..n
            invariant
                n == all.len(),
                self.asset_tags@ == all,
                kept@ == all.take(i as int).filter(pred),
        {
            let p = &self.asset_tags[i];
            let drop_it = str_eq(p.0.as_str(), asset_id) && id_listed(tag_ids, p.1.as_str());
            let ghost prev = kept@;
            if !drop_it {
                kept.push((p.0.clone(), p.1.clone()));
                proof {
                    assert(kept@ =~= prev.push(all[i as int]));
                }
            }
            proof {
                assert(all.take(i + 1).drop_last() =~= all.take(i as int));
                assert(all.take(i + 1).last() == all[i as int]);
                assert(kept@ == all.take(i + 1).filter(pred));
            }
        }
        proof {
            assert(all.take(n as int) =~= all);
            lemma_filter_keeps_distinct_keys(all, pred, |p: (String, String)| (p.0@, p.1@));
        }
        self.asset_tags = kept;
    }

    /// The tags assigned to an asset, sorted by name.
    #[verifier::loop_isolation(false)]
    pub fn get_asset_tags(&self, asset_id: &str) -> (r: Vec<Tag>)
        ensures
            r@.to_multiset() == self.tags@.filter(
                |t: Tag| pair_in(self.asset_tags@, asset_id@, t.id@),
            ).to_multiset(),
            tags_sorted_by_name(r@),
    {
        let ghost all = self.tags@;
        let ghost pred = |t: Tag| pair_in(self.asset_tags@, asset_id@, t.id@);
        let mut kept: Vec<Tag> = Vec::new();
        let n = self.tags.len();
        proof {
            assert(all.take(0) =~= Seq::<Tag>::empty());
            reveal(Seq::filter);
        }
        for i in 0..n
            invariant
                n == all.len(),
                self.tags@ == all,
                kept@ == all.take(i as int).filter(pred),
        {
            let assigned = self.pair_exists(asset_id, self.tags[i].id.as_str());
            let ghost prev = kept@;
            if assigned {
                kept.push(clone_tag(&self.tags[i]));
                proof {
                    assert(kept@ =~= prev.push(all[i as int]));
                }
            }
            proof {
                assert(all.take(i + 1).drop_last() =~= all.take(i as int));
                assert(all.take(i + 1).last() == all[i as int]);
                assert(kept@ == all.take(i + 1).filter(pred));
            }
        }
        proof {
            assert(all.take(n as int) =~= all);
        }
        sort_tags(kept)
    }

    /// How many assets of a library sit directly in a folder path.
    #[verifier::loop_isolation(false)]
    fn count_folder_assets(&self, library_id: &str, path: &str) -> (r: i64)
        requires
            self.assets@.len() <= i64::MAX,
        ensures
            r as int == count_in_folder(self.assets@, library_id@, path@),
    {
        let ghost all = self.assets@;
        let ghost pred = |a: Asset| a.library_id@ == library_id@ && a.folder_path@ == path@;
        let mut count: i64 = 0;
        let n = self.assets.len();
        proof {
            assert(all.take(0) =~= Seq::<Asset>::empty());
            reveal(Seq::filter);
        }
        for i in 0..n
            invariant
                n == all.len(),
                self.assets@ == all,
                count as int == all.take(i as int).filter(pred).len(),
                count <= i as int,
        {
            proof {
                assert(all.take(i + 1).drop_last() =~= all.take(i as int));
                assert(all.take(i + 1).last() == all[i as int]);
            }
            if str_eq(self.assets[i].library_id.as_str(), library_id) && str_eq(
                self.assets[i].folder_path.as_str(),
                path,
            ) {
                count = count + 1;
            }
        }
        proof {
            assert(all.take(n as int) =~= all);
        }
        count
    }

    /// The visible folders implied by the asset rows of a library: one entry
    /// per distinct `folder_path`, with the number of assets directly in it
    /// and the display name of its last segment, sorted by path.
    #[verifier::loop_isolation(false)]
    pub fn get_folders(&self, library_id: &str) -> (r: Vec<FolderInfo>)
        requires
            self.assets@.len() <= i64::MAX,
        ensures
            sorted_by_path(r@),
            crate::folders::distinct_paths(r@),
            forall|i: int|
                0 <= i < r@.len() ==> {
                    let f = #[trigger] r@[i];
                    &&& folder_of_some_asset(self.assets@, library_id@, f.path@)
                    &&& f.name@ == spec_folder_name(f.path@)
                    &&& f.asset_count as int == count_in_folder(self.assets@, library_id@, f.path@)
                },
            forall|j: int|
                0 <= j < self.assets@.len() && (#[trigger] self.assets@[j]).library_id@
                    == library_id@ ==> contains_path(r@, self.assets@[j].folder_path@),
    {
        let mut acc: Vec<FolderInfo> = Vec::new();
        let n = self.assets.len();
        for i in 0..n
            invariant
                crate::folders::distinct_paths(acc@),
                forall|q: int|
                    0 <= q < acc@.len() ==> {
                        let f = #[trigger] acc@[q];
                        &&& folder_of_some_asset(self.assets@, library_id@, f.path@)
                        &&& f.name@ == spec_folder_name(f.path@)
                        &&& f.asset_count as int == count_in_folder(
                            self.assets@,
                            library_id@,
                            f.path@,
                        )
                    },
                forall|j: int|
                    0 <= j < i && (#[trigger] self.assets@[j]).library_id@ == library_id@
                        ==> contains_path(acc@, self.assets@[j].folder_path@),
        {
            let ghost acc0 = acc@;
            if str_eq(self.assets[i].library_id.as_str(), library_id) {
                let present = crate::folders::holds_path(&acc, &self.assets[i].folder_path);
                if !present {
                    let path = self.assets[i].folder_path.clone();
                    let name = folder_display_name(path.as_str());
                    let count = self.count_folder_assets(library_id, path.as_str());
                    acc.push(FolderInfo { path, name, asset_count: count });
                    proof {
                        let last = acc@.len() - 1;
                        assert(acc@[last].path@ == self.assets@[i as int].folder_path@);
                        assert(contains_path(acc@, self.assets@[i as int].folder_path@));
                    }
                } else {
                    proof {
                        assert(contains_path(acc@, self.assets@[i as int].folder_path@));
                    }
                }
            }
            proof {
                assert(acc0.len() <= acc@.len());
                assert(forall|w: int| 0 <= w < acc0.len() ==> #[trigger] acc@[w] == acc0[w]);
                assert forall|j: int|
                    0 <= j < i + 1 && (#[trigger] self.assets@[j]).library_id@ == library_id@
                        implies contains_path(acc@, self.assets@[j].folder_path@) by {
                    if j < i as int {
                        assert(contains_path(acc0, self.assets@[j].folder_path@));
                        let w = choose|w: int|
                            0 <= w < acc0.len() && (#[trigger] acc0[w]).path@
                                == self.assets@[j].folder_path@;
                        assert(acc@[w].path@ == self.assets@[j].folder_path@);
                    }
                }
            }
        }
        let ghost accg = acc@;
        let r = crate::folders::sort_folders(acc);
        proof {
            broadcast use vstd::seq_lib::group_to_multiset_ensures;

            assert forall|i: int|
                0 <= i < r@.len() implies {
                let f = #[trigger] r@[i];
                &&& folder_of_some_asset(self.assets@, library_id@, f.path@)
                &&& f.name@ == spec_folder_name(f.path@)
                &&& f.asset_count as int == count_in_folder(self.assets@, library_id@, f.path@)
            } by {
                assert(r@.contains(r@[i]));
                assert(r@.to_multiset().count(r@[i]) > 0);
                assert(accg.to_multiset().count(r@[i]) > 0);
                assert(accg.contains(r@[i]));
                let w = choose|w: int| 0 <= w < accg.len() && accg[w] == r@[i];
                assert(accg[w] == r@[i]);
            }
            assert forall|j: int|
                0 <= j < self.assets@.len() && (#[trigger] self.assets@[j]).library_id@
                    == library_id@ implies contains_path(r@, self.assets@[j].folder_path@) by {
                assert(contains_path(accg, self.assets@[j].folder_path@));
                let w = choose|w: int|
                    0 <= w < accg.len() && (#[trigger] accg[w]).path@
                        == self.assets@[j].folder_path@;
                assert(accg.contains(accg[w]));
                assert(accg.to_multiset().count(accg[w]) > 0);
                assert(r@.to_multiset().count(accg[w]) > 0);
                assert(r@.contains(accg[w]));
                let v = choose|v: int| 0 <= v < r@.len() && r@[v] == accg[w];
                assert(r@[v].path@ == self.assets@[j].folder_path@);
            }
        }
        r
    }

    /// Search a library by tags: `match_all` keeps the assets that carry
    /// every listed tag, otherwise those that carry at least one. An empty
    /// tag list matches nothing. Results come in storage order.
    #[verifier::loop_isolation(false)]
    pub fn search_by_tags(&self, library_id: &str, tag_ids: &Vec<String>, match_all: bool) -> (r:
        Vec<Asset>)
        ensures
            r@ == self.assets@.filter(
                |a: Asset|
                    tag_ids@.len() > 0 && a.library_id@ == library_id@ && (if match_all {
                        forall|k: int|
                            0 <= k < tag_ids@.len() ==> pair_in(
                                self.asset_tags@,
                                a.id@,
                                (#[trigger] tag_ids@[k])@,
                            )
                    } else {
                        exists|k: int|
                            0 <= k < tag_ids@.len() && pair_in(
                                self.asset_tags@,
                                a.id@,
                                (#[trigger] tag_ids@[k])@,
                            )
                    }),
            ),
    {
        let ghost all = self.assets@;
        let ghost pred = |a: Asset|
            tag_ids@.len() > 0 && a.library_id@ == library_id@ && (if match_all {
                forall|k: int|
                    0 <= k < tag_ids@.len() ==> pair_in(
                        self.asset_tags@,
                        a.id@,
                        (#[trigger] tag_ids@[k])@,
                    )
            } else {
                exists|k: int|
                    0 <= k < tag_ids@.len() && pair_in(
                        self.asset_tags@,
                        a.id@,
                        (#[trigger] tag_ids@[k])@,
                    )
            });
        let mut out: Vec<Asset> = Vec::new();
        let n = self.assets.len();
        proof {
            assert(all.take(0) =~= Seq::<Asset>::empty());
            reveal(Seq::filter);
        }
        for i in 0..n
            invariant
                n == all.len(),
                self.assets@ == all,
                out@ == all.take(i as int).filter(pred),
        {
            let a = &self.assets[i];
            let mut hit = tag_ids.len() > 0 && str_eq(a.library_id.as_str(), library_id);
            if hit {
                if match_all {
                    let m = tag_ids.len();
                    let mut ok = true;
                    for k in 0..m
                        invariant
                            ok <==> forall|q: int|
                                0 <= q < k ==> pair_in(
                                    self.asset_tags@,
                                    all[i as int].id@,
                                    (#[trigger] tag_ids@[q])@,
                                ),
                    {
                        let has = self.pair_exists(a.id.as_str(), tag_ids[k].as_str());
                        ok = ok && has;
                    }
                    hit = ok;
                } else {
                    let m = tag_ids.len();
                    let mut any = false;
                    for k in 0..m
                        invariant
                            any <==> exists|q: int|
                                0 <= q < k && pair_in(
                                    self.asset_tags@,
                                    all[i as int].id@,
                                    (#[trigger] tag_ids@[q])@,
                                ),
                    {
                        let has = self.pair_exists(a.id.as_str(), tag_ids[k].as_str());
                        any = any || has;
                    }
                    hit = any;
                }
            }
            let ghost prev = out@;
            if hit {
                out.push(clone_asset(&self.assets[i]));
                proof {
                    assert(out@ =~= prev.push(all[i as int]));
                }
            }
            proof {
                assert(all.take(i + 1).drop_last() =~= all.take(i as int));
                assert(all.take(i + 1).last() == all[i as int]);
                assert(hit == pred(all[i as int]));
                assert(out@ == all.take(i + 1).filter(pred));
            }
        }
        proof {
            assert(all.take(n as int) =~= all);
        }
        out
    }
}


/// The arguments the configuration command receives.
pub struct AiConfigInput {
    pub provider_name: String,
    pub api_endpoint: String,
    pub api_key: String,
    pub model_id: String,
    pub embedding_model: String,
}

/// Build the stored configuration row from command input: it gets the given
/// fresh id and becomes active.
pub fn ai_config_from_input(id: String, input: AiConfigInput) -> (r: AiConfig)
    ensures
        r.id@ == id@,
        r.provider_name@ == input.provider_name@,
        r.api_endpoint@ == input.api_endpoint@,
        r.api_key@ == input.api_key@,
        r.model_id@ == input.model_id@,
        r.embedding_model@ == input.embedding_model@,
        r.is_active,
        r.created_at@.len() == 0,
{
    AiConfig {
        id,
        provider_name: input.provider_name,
        api_endpoint: input.api_endpoint,
        api_key: input.api_key,
        model_id: input.model_id,
        embedding_model: input.embedding_model,
        is_active: true,
        created_at: String::new(),
    }
}

/// Build the asset row for a newly imported file: the file keeps its original
/// name, has no description yet, and its virtual folder is stored in the
/// `/`-rooted form.
pub fn build_imported_asset(
    asset_id: String,
    library_id: String,
    original_name: String,
    relative_path: String,
    mime_type: String,
    file_type: String,
    file_size: i64,
    file_hash: String,
    width: Option<i32>,
    height: Option<i32>,
    thumbnail_path: Option<String>,
    folder_path: &str,
) -> (a: Asset)
    ensures
        a.id@ == asset_id@,
        a.library_id@ == library_id@,
        a.file_name@ == original_name@,
        a.original_name@ == original_name@,
        a.relative_path@ == relative_path@,
        a.file_type@ == file_type@,
        a.mime_type@ == mime_type@,
        a.file_size == file_size,
        a.file_hash@ == file_hash@,
        a.width == width,
        a.height == height,
        a.duration_ms is None,
        a.description@.len() == 0,
        a.ai_description@.len() == 0,
        a.thumbnail_path == thumbnail_path,
        a.folder_path@ == crate::folders::spec_normalized_folder(folder_path@),
        a.created_at@.len() == 0,
        a.updated_at@.len() == 0,
        a.imported_at@.len() == 0,
{
    let folder = crate::folders::normalize_folder_path(folder_path);
    Asset {
        id: asset_id,
        library_id,
        file_name: original_name.clone(),
        original_name,
        relative_path,
        file_type,
        mime_type,
        file_size,
        file_hash,
        width,
        height,
        duration_ms: None,
        description: String::new(),
        ai_description: String::new(),
        thumbnail_path,
        folder_path: folder,
        created_at: String::new(),
        updated_at: String::new(),
        imported_at: String::new(),
    }
}

/// Build the asset row for an artifact derived from existing assets: a full,
/// independent row with its own identity; derivation lineage is carried only
/// informally in the description text, and the given descriptions are stored
/// as they come (a compressed copy inherits its source's, a new artifact gets
/// fresh text).
pub fn build_derived_asset(
    asset_id: String,
    library_id: String,
    file_name: String,
    original_name: String,
    relative_path: String,
    mime_type: String,
    file_type: String,
    file_size: i64,
    file_hash: String,
    width: Option<i32>,
    height: Option<i32>,
    thumbnail_path: Option<String>,
    folder_path: &str,
    description: String,
    ai_description: String,
) -> (a: Asset)
    ensures
        a.id@ == asset_id@,
        a.library_id@ == library_id@,
        a.file_name@ == file_name@,
        a.original_name@ == original_name@,
        a.relative_path@ == relative_path@,
        a.file_type@ == file_type@,
        a.mime_type@ == mime_type@,
        a.file_size == file_size,
        a.file_hash@ == file_hash@,
        a.width == width,
        a.height == height,
        a.duration_ms is None,
        a.description@ == description@,
        a.ai_description@ == ai_description@,
        a.thumbnail_path == thumbnail_path,
        a.folder_path@ == crate::folders::spec_normalized_folder(folder_path@),
        a.created_at@.len() == 0,
        a.updated_at@.len() == 0,
        a.imported_at@.len() == 0,
{
    let folder = crate::folders::normalize_folder_path(folder_path);
    Asset {
        id: asset_id,
        library_id,
        file_name,
        original_name,
        relative_path,
        file_type,
        mime_type,
        file_size,
        file_hash,
        width,
        height,
        duration_ms: None,
        description,
        ai_description,
        thumbnail_path,
        folder_path: folder,
        created_at: String::new(),
        updated_at: String::new(),
        imported_at: String::new(),
    }
}

/// How many assignments a tag has, over all assets.
pub open spec fn count_tagged(pairs: Seq<(String, String)>, tag_id: Seq<char>) -> int {
    pairs.filter(|p: (String, String)| p.1@ == tag_id).len() as int
}

/// Whether a counted tag list is sorted by name.
pub open spec fn counted_sorted_by_name(s: Seq<TagWithCount>) -> bool {
    forall|i: int, j: int|
        0 <= i < j < s.len() ==> lex_le((#[trigger] s[i]).name@, (#[trigger] s[j]).name@)
}

/// The counted form of one tag row.
pub open spec fn spec_with_count(t: Tag, pairs: Seq<(String, String)>) -> TagWithCount {
    TagWithCount {
        id: t.id,
        library_id: t.library_id,
        name: t.name,
        color: t.color,
        category: t.category,
        is_ai: t.is_ai,
        created_at: t.created_at,
        asset_count: count_tagged(pairs, t.id@) as i64,
    }
}

impl Store {
    /// How many assignments a tag has.
    #[verifier::loop_isolation(false)]
    fn count_tag_assignments(&self, tag_id: &str) -> (r: i64)
        requires
            self.asset_tags@.len() <= i64::MAX,
        ensures
            r as int == count_tagged(self.asset_tags@, tag_id@),
    {
        let ghost all = self.asset_tags@;
        let ghost pred = |p: (String, String)| p.1@ == tag_id@;
        let mut count: i64 = 0;
        let n = self.asset_tags.len();
        proof {
            assert(all.take(0) =~= Seq::<(String, String)>::empty());
            reveal(Seq::filter);
        }
        for i in 0..n
            invariant
                n == all.len(),
                self.asset_tags@ == all,
                count as int == all.take(i as int).filter(pred).len(),
                count <= i as int,
        {
            proof {
                assert(all.take(i + 1).drop_last() =~= all.take(i as int));
                assert(all.take(i + 1).last() == all[i as int]);
            }
            if str_eq(self.asset_tags[i].1.as_str(), tag_id) {
                count = count + 1;
            }
        }
        proof {
            assert(all.take(n as int) =~= all);
        }
        count
    }

    /// The tags of a library (optionally restricted to one category), each
    /// with the number of assets carrying it, sorted by name.
    #[verifier::loop_isolation(false)]
    pub fn list_tags(&self, library_id: &str, category: Option<&str>) -> (r: Vec<TagWithCount>)
        requires
            self.asset_tags@.len() <= i64::MAX,
        ensures
            r@.to_multiset() == self.tags@.filter(
                |t: Tag|
                    t.library_id@ == library_id@ && (match category {
                        Some(c) => t.category@ == c@,
                        None => true,
                    }),
            ).map_values(|t: Tag| spec_with_count(t, self.asset_tags@)).to_multiset(),
            counted_sorted_by_name(r@),
    {
        let ghost all = self.tags@;
        let ghost pred = |t: Tag|
            t.library_id@ == library_id@ && (match category {
                Some(c) => t.category@ == c@,
                None => true,
            });
        let ghost f = |t: Tag| spec_with_count(t, self.asset_tags@);
        let mut kept: Vec<TagWithCount> = Vec::new();
        let n = self.tags.len();
        proof {
            assert(all.take(0) =~= Seq::<Tag>::empty());
            reveal(Seq::filter);
            assert(kept@ =~= all.take(0).filter(pred).map_values(f));
        }
        for i in 0..n
            invariant
                n == all.len(),
                self.tags@ == all,
                kept@ == all.take(i as int).filter(pred).map_values(f),
        {
            let t = &self.tags[i];
            let hit = str_eq(t.library_id.as_str(), library_id) && (match category {
                Some(c) => str_eq(t.category.as_str(), c),
                None => true,
            });
            let ghost prev = kept@;
            proof {
                assert(all.take(i + 1).drop_last() =~= all.take(i as int));
                assert(all.take(i + 1).last() == all[i as int]);
            }
            if hit {
                let count = self.count_tag_assignments(t.id.as_str());
                kept.push(
                    TagWithCount {
                        id: t.id.clone(),
                        library_id: t.library_id.clone(),
                        name: t.name.clone(),
                        color: t.color.clone(),
                        category: t.category.clone(),
                        is_ai: t.is_ai,
                        created_at: t.created_at.clone(),
                        asset_count: count,
                    },
                );
                proof {
                    assert(kept@.last() == f(all[i as int]));
                    assert(all.take(i + 1).filter(pred) == all.take(i as int).filter(pred).push(
                        all[i as int],
                    ));
                    assert(kept@ =~= all.take(i + 1).filter(pred).map_values(f));
                }
            } else {
                proof {
                    assert(all.take(i + 1).filter(pred) == all.take(i as int).filter(pred));
                }
            }
        }
        proof {
            assert(all.take(n as int) =~= all);
        }
        sort_tags_with_count(kept)
    }
}

/// Sort a counted tag list by name. The result holds exactly the same
/// entries.
#[verifier::loop_isolation(false)]
pub fn sort_tags_with_count(list: Vec<TagWithCount>) -> (r: Vec<TagWithCount>)
    ensures
        r@.to_multiset() == list@.to_multiset(),
        counted_sorted_by_name(r@),
{
    let mut sorted: Vec<TagWithCount> = Vec::new();
    let m = list.len();
    let ghost all = list@;
    proof {
        assert(all.take(0) =~= Seq::<TagWithCount>::empty());
        assert(sorted@ =~= Seq::<TagWithCount>::empty());
        assert(sorted@.to_multiset() =~= all.take(0).to_multiset());
    }
    for k in 0..m
        invariant
            m == all.len(),
            list@ == all,
            sorted@.to_multiset() == all.take(k as int).to_multiset(),
            counted_sorted_by_name(sorted@),
    {
        let t = &list[k];
        let mut pos: usize = 0;
        while pos < sorted.len() && !str_le(t.name.as_str(), sorted[pos].name.as_str())
            invariant
                pos <= sorted@.len(),
                forall|i: int| 0 <= i < pos ==> lex_le((#[trigger] sorted@[i]).name@, t.name@),
            decreases sorted@.len() - pos,
        {
            proof {
                lemma_lex_le_total(t.name@, sorted@[pos as int].name@);
            }
            pos = pos + 1;
        }
        let ghost before = sorted@;
        sorted.insert(
            pos,
            TagWithCount {
                id: t.id.clone(),
                library_id: t.library_id.clone(),
                name: t.name.clone(),
                color: t.color.clone(),
                category: t.category.clone(),
                is_ai: t.is_ai,
                created_at: t.created_at.clone(),
                asset_count: t.asset_count,
            },
        );
        proof {
            vstd::seq_lib::to_multiset_insert(before, pos as int, sorted@[pos as int]);
            vstd::seq_lib::to_multiset_build(all.take(k as int), all[k as int]);
            assert(all.take(k + 1) =~= all.take(k as int).push(all[k as int]));
            assert(sorted@[pos as int] == all[k as int]);
            assert forall|i: int, j: int| 0 <= i < j < sorted@.len() implies lex_le(
                (#[trigger] sorted@[i]).name@,
                (#[trigger] sorted@[j]).name@,
            ) by {
                if i < pos && j == pos {
                } else if i == pos && j > pos {
                    assert(sorted@[j] == before[j - 1]);
                    if j > pos + 1 {
                        assert(lex_le(before[pos as int].name@, before[j - 1].name@));
                        lemma_lex_le_trans(
                            sorted@[pos as int].name@,
                            before[pos as int].name@,
                            before[j - 1].name@,
                        );
                    }
                } else {
                }
            }
        }
    }
    proof {
        assert(all.take(m as int) =~= all);
    }
    sorted
}


/// The listing column a sort key names: file name, file size, or import time
/// (also the fallback for unknown keys).
pub enum SortColumn {
    Name,
    Size,
    Date,
}

/// The column a textual sort key selects.
pub open spec fn spec_sort_column(sort_by: Seq<char>) -> SortColumn {
    if sort_by == "name"@ {
        SortColumn::Name
    } else if sort_by == "size"@ {
        SortColumn::Size
    } else {
        SortColumn::Date
    }
}

/// Strictly smaller in the chosen column.
pub open spec fn key_lt(col: SortColumn, a: Asset, b: Asset) -> bool {
    match col {
        SortColumn::Name => lex_le(a.file_name@, b.file_name@) && a.file_name@ != b.file_name@,
        SortColumn::Size => a.file_size < b.file_size,
        SortColumn::Date => lex_le(a.imported_at@, b.imported_at@) && a.imported_at@
            != b.imported_at@,
    }
}

/// Equal in the chosen column.
pub open spec fn key_eq(col: SortColumn, a: Asset, b: Asset) -> bool {
    match col {
        SortColumn::Name => a.file_name@ == b.file_name@,
        SortColumn::Size => a.file_size == b.file_size,
        SortColumn::Date => a.imported_at@ == b.imported_at@,
    }
}

/// The listing order: by the chosen column in the chosen direction, with ties
/// broken by asset id so that the order is total.
pub open spec fn asset_before(col: SortColumn, asc: bool, a: Asset, b: Asset) -> bool {
    (if asc {
        key_lt(col, a, b)
    } else {
        key_lt(col, b, a)
    }) || (key_eq(col, a, b) && lex_le(a.id@, b.id@))
}

proof fn lemma_key_total(col: SortColumn, a: Asset, b: Asset)
    ensures
        key_lt(col, a, b) || key_lt(col, b, a) || key_eq(col, a, b),
{
    match col {
        SortColumn::Name => {
            lemma_lex_le_total(a.file_name@, b.file_name@);
        },
        SortColumn::Size => {},
        SortColumn::Date => {
            lemma_lex_le_total(a.imported_at@, b.imported_at@);
        },
    }
}

proof fn lemma_asset_before_total(col: SortColumn, asc: bool, a: Asset, b: Asset)
    ensures
        asset_before(col, asc, a, b) || asset_before(col, asc, b, a),
{
    lemma_key_total(col, a, b);
    if key_eq(col, a, b) {
        lemma_lex_le_total(a.id@, b.id@);
        match col {
            SortColumn::Name => {},
            SortColumn::Size => {},
            SortColumn::Date => {},
        }
    }
}

proof fn lemma_key_lt_trans(col: SortColumn, a: Asset, b: Asset, c: Asset)
    requires
        key_lt(col, a, b),
        key_lt(col, b, c),
    ensures
        key_lt(col, a, c),
{
    match col {
        SortColumn::Name => {
            lemma_lex_le_trans(a.file_name@, b.file_name@, c.file_name@);
            if a.file_name@ == c.file_name@ {
                lemma_lex_le_antisym(a.file_name@, b.file_name@);
            }
        },
        SortColumn::Size => {},
        SortColumn::Date => {
            lemma_lex_le_trans(a.imported_at@, b.imported_at@, c.imported_at@);
            if a.imported_at@ == c.imported_at@ {
                lemma_lex_le_antisym(a.imported_at@, b.imported_at@);
            }
        },
    }
}

proof fn lemma_asset_before_trans(col: SortColumn, asc: bool, a: Asset, b: Asset, c: Asset)
    requires
        asset_before(col, asc, a, b),
        asset_before(col, asc, b, c),
    ensures
        asset_before(col, asc, a, c),
{
    if asc {
        if key_lt(col, a, b) && key_lt(col, b, c) {
            lemma_key_lt_trans(col, a, b, c);
        } else if key_eq(col, a, b) && key_eq(col, b, c) {
            lemma_lex_le_trans(a.id@, b.id@, c.id@);
        }
    } else {
        if key_lt(col, b, a) && key_lt(col, c, b) {
            lemma_key_lt_trans(col, c, b, a);
        } else if key_eq(col, a, b) && key_eq(col, b, c) {
            lemma_lex_le_trans(a.id@, b.id@, c.id@);
        }
    }
}

/// Compare two assets in the listing order.
fn asset_before_exec(col: &SortColumn, asc: bool, a: &Asset, b: &Asset) -> (r: bool)
    ensures
        r == asset_before(*col, asc, *a, *b),
{
    let lt_dir = match col {
        SortColumn::Name => {
            if asc {
                str_le(a.file_name.as_str(), b.file_name.as_str()) && !str_eq(
                    a.file_name.as_str(),
                    b.file_name.as_str(),
                )
            } else {
                str_le(b.file_name.as_str(), a.file_name.as_str()) && !str_eq(
                    b.file_name.as_str(),
                    a.file_name.as_str(),
                )
            }
        },
        SortColumn::Size => {
            if asc {
                a.file_size < b.file_size
            } else {
                b.file_size < a.file_size
            }
        },
        SortColumn::Date => {
            if asc {
                str_le(a.imported_at.as_str(), b.imported_at.as_str()) && !str_eq(
                    a.imported_at.as_str(),
                    b.imported_at.as_str(),
                )
            } else {
                str_le(b.imported_at.as_str(), a.imported_at.as_str()) && !str_eq(
                    b.imported_at.as_str(),
                    a.imported_at.as_str(),
                )
            }
        },
    };
    let keq = match col {
        SortColumn::Name => str_eq(a.file_name.as_str(), b.file_name.as_str()),
        SortColumn::Size => a.file_size == b.file_size,
        SortColumn::Date => str_eq(a.imported_at.as_str(), b.imported_at.as_str()),
    };
    lt_dir || (keq && str_le(a.id.as_str(), b.id.as_str()))
}

/// Sort an asset list in the listing order. The result holds exactly the same
/// assets.
#[verifier::loop_isolation(false)]
pub fn sort_assets(list: Vec<Asset>, col: SortColumn, asc: bool) -> (r: Vec<Asset>)
    ensures
        r@.to_multiset() == list@.to_multiset(),
        forall|i: int, j: int|
            0 <= i < j < r@.len() ==> asset_before(col, asc, #[trigger] r@[i], #[trigger] r@[j]),
{
    let mut sorted: Vec<Asset> = Vec::new();
    let m = list.len();
    let ghost all = list@;
    proof {
        assert(all.take(0) =~= Seq::<Asset>::empty());
        assert(sorted@ =~= Seq::<Asset>::empty());
        assert(sorted@.to_multiset() =~= all.take(0).to_multiset());
    }
    for k in 0..m
        invariant
            m == all.len(),
            list@ == all,
            sorted@.to_multiset() == all.take(k as int).to_multiset(),
            forall|i: int, j: int|
                0 <= i < j < sorted@.len() ==> asset_before(
                    col,
                    asc,
                    #[trigger] sorted@[i],
                    #[trigger] sorted@[j],
                ),
    {
        let a = &list[k];
        let mut pos: usize = 0;
        while pos < sorted.len() && !asset_before_exec(&col, asc, a, &sorted[pos])
            invariant
                pos <= sorted@.len(),
                forall|i: int| 0 <= i < pos ==> asset_before(col, asc, #[trigger] sorted@[i], *a),
            decreases sorted@.len() - pos,
        {
            proof {
                lemma_asset_before_total(col, asc, *a, sorted@[pos as int]);
            }
            pos = pos + 1;
        }
        let ghost before = sorted@;
        sorted.insert(pos, clone_asset(a));
        proof {
            vstd::seq_lib::to_multiset_insert(before, pos as int, sorted@[pos as int]);
            vstd::seq_lib::to_multiset_build(all.take(k as int), all[k as int]);
            assert(all.take(k + 1) =~= all.take(k as int).push(all[k as int]));
            assert(sorted@[pos as int] == all[k as int]);
            assert forall|i: int, j: int| 0 <= i < j < sorted@.len() implies asset_before(
                col,
                asc,
                #[trigger] sorted@[i],
                #[trigger] sorted@[j],
            ) by {
                if i < pos && j == pos {
                } else if i == pos && j > pos {
                    assert(sorted@[j] == before[j - 1]);
                    if j > pos + 1 {
                        assert(asset_before(col, asc, before[pos as int], before[j - 1]));
                        lemma_asset_before_trans(
                            col,
                            asc,
                            sorted@[pos as int],
                            before[pos as int],
                            before[j - 1],
                        );
                    }
                } else {
                }
            }
        }
    }
    proof {
        assert(all.take(m as int) =~= all);
    }
    sorted
}

/// Whether an asset matches a listing request.
pub open spec fn listing_pred(
    a: Asset,
    lib: Seq<char>,
    folder: Option<Seq<char>>,
    file_type: Option<Seq<char>>,
) -> bool {
    a.library_id@ == lib && (match folder {
        Some(f) => a.folder_path@ == f,
        None => true,
    }) && (match file_type {
        Some(t) => a.file_type@ == t,
        None => true,
    })
}

impl Store {
    /// One page of a library's assets, optionally restricted to one virtual
    /// folder and one media category, ordered by the requested column and
    /// direction (ties broken by id), with the total count of all matches.
    #[verifier::loop_isolation(false)]
    pub fn get_assets(
        &self,
        library_id: &str,
        folder_path: Option<&str>,
        file_type: Option<&str>,
        page: u32,
        page_size: u32,
        sort_by: &str,
        sort_order: &str,
    ) -> (r: PaginatedAssets)
        requires
            self.assets@.len() <= i64::MAX,
        ensures
            r.page == page,
            r.page_size == page_size,
            ({
                let filtered = self.assets@.filter(
                    |a: Asset|
                        listing_pred(
                            a,
                            library_id@,
                            match folder_path {
                                Some(f) => Some(f@),
                                None => None,
                            },
                            match file_type {
                                Some(t) => Some(t@),
                                None => None,
                            },
                        ),
                );
                let col = spec_sort_column(sort_by@);
                let asc = sort_order@ == "asc"@;
                &&& r.total as int == filtered.len()
                &&& exists|s: Seq<Asset>|
                    {
                        let off = (if page >= 1 {
                            (page - 1) as int
                        } else {
                            0
                        }) * (page_size as int);
                        let lo = if off < s.len() {
                            off
                        } else {
                            s.len() as int
                        };
                        let hi = if off + (page_size as int) < s.len() {
                            off + (page_size as int)
                        } else {
                            s.len() as int
                        };
                        &&& #[trigger] s.to_multiset() == filtered.to_multiset()
                        &&& (forall|i: int, j: int|
                            0 <= i < j < s.len() ==> asset_before(
                                col,
                                asc,
                                #[trigger] s[i],
                                #[trigger] s[j],
                            ))
                        &&& r.assets@ == s.subrange(lo, hi)
                    }
            }),
    {
        let ghost gfolder: Option<Seq<char>> = match folder_path {
            Some(f) => Some(f@),
            None => None,
        };
        let ghost gtype: Option<Seq<char>> = match file_type {
            Some(t) => Some(t@),
            None => None,
        };
        let ghost pred = |a: Asset| listing_pred(a, library_id@, gfolder, gtype);
        let ghost all = self.assets@;
        let mut kept: Vec<Asset> = Vec::new();
        let n = self.assets.len();
        proof {
            assert(all.take(0) =~= Seq::<Asset>::empty());
            reveal(Seq::filter);
        }
        for i in 0..n
            invariant
                n == all.len(),
                self.assets@ == all,
                kept@ == all.take(i as int).filter(pred),
                kept@.len() <= i as int,
        {
            let a = &self.assets[i];
            let hit = str_eq(a.library_id.as_str(), library_id) && (match folder_path {
                Some(f) => str_eq(a.folder_path.as_str(), f),
                None => true,
            }) && (match file_type {
                Some(ft) => str_eq(a.file_type.as_str(), ft),
                None => true,
            });
            let ghost prev = kept@;
            proof {
                assert(all.take(i + 1).drop_last() =~= all.take(i as int));
                assert(all.take(i + 1).last() == all[i as int]);
            }
            if hit {
                kept.push(clone_asset(a));
                proof {
                    assert(kept@ =~= prev.push(all[i as int]));
                    assert(kept@ == all.take(i + 1).filter(pred));
                }
            } else {
                proof {
                    assert(kept@ == all.take(i + 1).filter(pred));
                }
            }
        }
        proof {
            assert(all.take(n as int) =~= all);
        }
        let total = kept.len() as i64;
        let col = if str_eq(sort_by, "name") {
            SortColumn::Name
        } else if str_eq(sort_by, "size") {
            SortColumn::Size
        } else {
            SortColumn::Date
        };
        let asc = str_eq(sort_order, "asc");
        let sorted = sort_assets(kept, col, asc);
        let ghost s = sorted@;
        let len = sorted.len();
        proof {
            assert((if page >= 1 { (page - 1) as int } else { 0 }) * (page_size as int)
                <= 0xffff_ffff * 0xffff_ffff) by (nonlinear_arith)
                requires
                    0 <= (page_size as int) < 0x1_0000_0000,
                    (if page >= 1 { (page - 1) as int } else { 0 }) < 0x1_0000_0000,
                    0 <= (if page >= 1 { (page - 1) as int } else { 0 }),
            ;
        }
        let off64 = (if page >= 1 {
            (page - 1) as u64
        } else {
            0u64
        }) * (page_size as u64);
        let lo: usize = if off64 < len as u64 {
            off64 as usize
        } else {
            len
        };
        let hi: usize = if off64 + (page_size as u64) < len as u64 {
            (off64 + (page_size as u64)) as usize
        } else {
            len
        };
        let mut out: Vec<Asset> = Vec::new();
        let mut i = lo;
        proof {
            assert(out@ =~= s.subrange(lo as int, lo as int));
        }
        while i < hi
            invariant
                lo <= i <= hi,
                hi <= s.len(),
                sorted@ == s,
                out@ =~= s.subrange(lo as int, i as int),
            decreases hi - i,
        {
            out.push(clone_asset(&sorted[i]));
            proof {
                assert(s.subrange(lo as int, i + 1) =~= s.subrange(lo as int, i as int).push(
                    s[i as int],
                ));
            }
            i = i + 1;
        }
        proof {
            let fpred = |a: Asset|
                listing_pred(
                    a,
                    library_id@,
                    match folder_path {
                        Some(f) => Some(f@),
                        None => None,
                    },
                    match file_type {
                        Some(t) => Some(t@),
                        None => None,
                    },
                );
            assert(pred =~= fpred);
            let filtered = self.assets@.filter(fpred);
            assert(s.to_multiset() == filtered.to_multiset());
            let off = (if page >= 1 {
                (page - 1) as int
            } else {
                0
            }) * (page_size as int);
            assert(off64 as int == off);
            let slo = if off < s.len() {
                off
            } else {
                s.len() as int
            };
            let shi = if off + (page_size as int) < s.len() {
                off + (page_size as int)
            } else {
                s.len() as int
            };
            assert(lo as int == slo);
            assert(hi as int == shi);
            assert(out@ == s.subrange(slo, shi));
        }
        PaginatedAssets { assets: out, total, page, page_size }
    }

    /// An asset together with its tags (sorted by name); exactly when the
    /// asset is missing, the lookup fails with `NotFound`.
    pub fn get_asset_detail(&self, id: &str) -> (r: Result<AssetDetail, LibError>)
        ensures
            match r {
                Ok(d) => {
                    &&& exists|i: int|
                        0 <= i < self.assets@.len() && d.asset == self.assets@[i] && (
                        #[trigger] self.assets@[i]).id@ == id@
                    &&& d.tags@.to_multiset() == self.tags@.filter(
                        |t: Tag| pair_in(self.asset_tags@, id@, t.id@),
                    ).to_multiset()
                    &&& tags_sorted_by_name(d.tags@)
                },
                Err(e) => e == LibError::NotFound && !has_asset(self.assets@, id@),
            },
    {
        let asset = match self.get_asset(id) {
            Ok(a) => clone_asset(a),
            Err(e) => {
                return Err(e);
            },
        };
        let tags = self.get_asset_tags(id);
        Ok(AssetDetail { asset, tags })
    }
}


/// Where an asset's virtual folder moves when the folder `old_norm` is
/// renamed to `new_norm`: the folder itself and everything below it move,
/// other folders stay.
pub open spec fn spec_moved_folder(fp: Seq<char>, old_norm: Seq<char>, new_norm: Seq<char>) -> Seq<
    char,
> {
    if fp == old_norm {
        new_norm
    } else if fp.len() > old_norm.len() && fp.take(old_norm.len() as int) == old_norm && fp[old_norm.len() as int]
        == '/' {
        new_norm + fp.skip(old_norm.len() as int)
    } else {
        fp
    }
}

impl Store {
    /// Apply a folder rename to the asset rows of one library: assets in the
    /// renamed folder, or in any folder below it, move to the new name; all
    /// other fields and rows stay. The caller performs the filesystem rename
    /// first; this is the second step of the two-phase rename.
    #[verifier::loop_isolation(false)]
    pub fn update_folder_path(&mut self, library_id: &str, old_path: &str, new_name: &str)
        requires
            old(self).wf(),
        ensures
            final(self).wf(),
            final(self).assets@.len() == old(self).assets@.len(),
            forall|j: int|
                0 <= j < old(self).assets@.len() ==> {
                    let a = #[trigger] old(self).assets@[j];
                    let b = final(self).assets@[j];
                    if a.library_id@ == library_id@ {
                        b == Asset { folder_path: b.folder_path, ..a } && b.folder_path@
                            == spec_moved_folder(
                            a.folder_path@,
                            crate::folders::spec_normalized_folder(old_path@),
                            crate::folders::spec_normalized_folder(new_name@),
                        )
                    } else {
                        b == a
                    }
                },
            final(self).libraries@ == old(self).libraries@,
            final(self).tags@ == old(self).tags@,
            final(self).asset_tags@ == old(self).asset_tags@,
            final(self).embeddings@ == old(self).embeddings@,
            final(self).ai_configs@ == old(self).ai_configs@,
    {
        let old_norm = crate::folders::normalize_folder_path(old_path);
        let new_norm = crate::folders::normalize_folder_path(new_name);
        let mut prefix_slash = old_norm.clone();
        prefix_slash.append("/");
        proof {
            reveal_strlit("/");
            assert(prefix_slash@ == old_norm@ + "/"@);
            assert(prefix_slash@.len() == old_norm@.len() + 1);
        }
        let n = self.assets.len();
        let mut i: usize = 0;
        while i < n
            invariant
                i <= n,
                n == self.assets@.len(),
                self.assets@.len() == old(self).assets@.len(),
                forall|j: int|
                    0 <= j < old(self).assets@.len() ==> {
                        let a = #[trigger] old(self).assets@[j];
                        let b = self.assets@[j];
                        if a.library_id@ == library_id@ && j < i as int {
                            b == Asset { folder_path: b.folder_path, ..a } && b.folder_path@
                                == spec_moved_folder(
                                a.folder_path@,
                                crate::folders::spec_normalized_folder(old_path@),
                                crate::folders::spec_normalized_folder(new_name@),
                            )
                        } else {
                            b == a
                        }
                    },
                libs_unique(self.libraries@),
                assets_unique(self.assets@),
                self.libraries@ == old(self).libraries@,
                self.tags@ == old(self).tags@,
                self.asset_tags@ == old(self).asset_tags@,
                self.embeddings@ == old(self).embeddings@,
                self.ai_configs@ == old(self).ai_configs@,
            decreases n - i,
        {
            if str_eq(self.assets[i].library_id.as_str(), library_id) {
                let fp_matches = str_eq(self.assets[i].folder_path.as_str(), old_norm.as_str());
                let fp_below = str_starts_with(
                    self.assets[i].folder_path.as_str(),
                    prefix_slash.as_str(),
                );
                let ghost fp = self.assets@[i as int].folder_path@;
                proof {
                    if fp_below {
                        assert(fp.take(prefix_slash@.len() as int) == prefix_slash@);
                        assert forall|w: int| 0 <= w < old_norm@.len() implies fp[w]
                            == old_norm@[w] by {
                            assert(fp.take(prefix_slash@.len() as int)[w] == fp[w]);
                            assert(prefix_slash@[w] == old_norm@[w]);
                        }
                        assert(fp.take(old_norm@.len() as int) =~= old_norm@);
                        assert(fp.take(prefix_slash@.len() as int)[old_norm@.len() as int]
                            == fp[old_norm@.len() as int]);
                        assert(fp[old_norm@.len() as int] == '/');
                    } else {
                        if fp.len() > old_norm@.len() && fp.take(old_norm@.len() as int)
                            == old_norm@ && fp[old_norm@.len() as int] == '/' {
                            assert(fp.take(prefix_slash@.len() as int) =~= prefix_slash@);
                        }
                    }
                }
                if fp_matches {
                    let a = &self.assets[i];
                    let mut updated = clone_asset(a);
                    updated.folder_path = new_norm.clone();
                    self.assets.set(i, updated);
                } else if fp_below {
                    let swapped = crate::strings::str_swap_prefix(
                        self.assets[i].folder_path.as_str(),
                        old_norm.as_str(),
                        new_norm.as_str(),
                    );
                    let a = &self.assets[i];
                    let mut updated = clone_asset(a);
                    updated.folder_path = swapped;
                    self.assets.set(i, updated);
                }
            }
            i = i + 1;
        }
    }
}

} // verus!
