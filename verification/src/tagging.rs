//! Applying an AI analysis to the store: the asset's description is updated,
//! each suggested tag is found or created and assigned, and the outcome is
//! summarized for the caller. Obtaining the analysis itself is the AI
//! collaborator's work and happens outside the library.

use vstd::prelude::*;

use crate::LibError;
use crate::store::{Asset, Store, Tag, has_tag, pair_in};

verus! {

/// One tag the vision model suggests for an asset.
pub struct SuggestedTag {
    pub name: String,
    pub category: String,
}

/// What the vision model reports for one image.
pub struct AnalysisResult {
    pub tags: Vec<SuggestedTag>,
    pub description: String,
    pub suggested_name: Option<String>,
}

/// The outcome of tagging one asset.
pub struct AiTagResult {
    pub tags: Vec<Tag>,
    pub description: String,
    pub suggested_name: Option<String>,
}

/// Record an AI analysis on an asset: store the description on the matching
/// asset row, find or create a tag for every suggested name (created tags are
/// marked as AI tags and draw their ids from `new_tag_ids`), and assign each
/// to the asset. The call is owed success whenever the drawn ids are fresh
/// and pairwise distinct; it fails (with the description already stored and
/// no row removed) exactly on an id collision. Embeddings are saved
/// separately by the caller, and their failure does not undo any of this.
#[verifier::loop_isolation(false)]
pub fn apply_ai_analysis(
    store: &mut Store,
    asset_id: &str,
    library_id: &str,
    analysis: &AnalysisResult,
    new_tag_ids: &Vec<String>,
) -> (r: Result<AiTagResult, LibError>)
    requires
        old(store).wf(),
        new_tag_ids@.len() == analysis.tags@.len(),
    ensures
        final(store).wf(),
        final(store).assets@.len() == old(store).assets@.len(),
        forall|j: int|
            0 <= j < old(store).assets@.len() ==> {
                let a = #[trigger] old(store).assets@[j];
                let b = final(store).assets@[j];
                if a.id@ == asset_id@ {
                    b == Asset { description: b.description, ..a } && b.description@
                        == analysis.description@
                } else {
                    b == a
                }
            },
        old(store).tags@.len() <= final(store).tags@.len(),
        final(store).tags@.take(old(store).tags@.len() as int) == old(store).tags@,
        old(store).asset_tags@.len() <= final(store).asset_tags@.len(),
        final(store).asset_tags@.take(old(store).asset_tags@.len() as int) == old(
            store,
        ).asset_tags@,
        ((forall|i: int|
            0 <= i < new_tag_ids@.len() ==> !has_tag(
                old(store).tags@,
                (#[trigger] new_tag_ids@[i])@,
            )) && (forall|i: int, j: int|
            0 <= i < j < new_tag_ids@.len() ==> (#[trigger] new_tag_ids@[i])@ != (
            #[trigger] new_tag_ids@[j])@)) ==> r is Ok,
        r is Err ==> r->Err_0 == LibError::InvalidInput && exists|i: int|
            0 <= i < new_tag_ids@.len() && (has_tag(
                old(store).tags@,
                (#[trigger] new_tag_ids@[i])@,
            ) || exists|j: int| 0 <= j < i && (#[trigger] new_tag_ids@[j])@ == new_tag_ids@[i]@),
        r is Ok ==> ({
            let out = r->Ok_0;
            &&& out.description@ == analysis.description@
            &&& (out.suggested_name is Some <==> analysis.suggested_name is Some)
            &&& (out.suggested_name is Some ==> out.suggested_name->0@
                == analysis.suggested_name->0@)
            &&& out.tags@.len() == analysis.tags@.len()
            &&& forall|i: int|
                0 <= i < out.tags@.len() ==> {
                    let tg = #[trigger] out.tags@[i];
                    &&& tg.name@ == analysis.tags@[i].name@
                    &&& tg.library_id@ == library_id@
                    &&& exists|w: int|
                        0 <= w < final(store).tags@.len() && #[trigger] final(store).tags@[w] == tg
                    &&& pair_in(final(store).asset_tags@, asset_id@, tg.id@)
                }
        }),
        final(store).libraries@ == old(store).libraries@,
        final(store).embeddings@ == old(store).embeddings@,
        final(store).ai_configs@ == old(store).ai_configs@,
{
    store.update_asset_description(asset_id, analysis.description.as_str());
    let ghost assets_after = store.assets@;
    let ghost tags0 = old(store).tags@;
    let ghost pairs0 = old(store).asset_tags@;
    let mut out_tags: Vec<Tag> = Vec::new();
    let n = analysis.tags.len();
    proof {
        assert(store.tags@.take(tags0.len() as int) =~= tags0);
        assert(store.asset_tags@.take(pairs0.len() as int) =~= pairs0);
    }
    for i in 0..n
        invariant
            store.wf(),
            store.assets@ == assets_after,
            out_tags@.len() == i,
            tags0.len() <= store.tags@.len(),
            store.tags@.take(tags0.len() as int) == tags0,
            pairs0.len() <= store.asset_tags@.len(),
            store.asset_tags@.take(pairs0.len() as int) == pairs0,
            forall|w: int|
                tags0.len() <= w < store.tags@.len() ==> exists|k: int|
                    0 <= k < i as int && (#[trigger] store.tags@[w]).id@ == (new_tag_ids@[k])@,
            forall|q: int|
                0 <= q < i as int ==> {
                    let tg = #[trigger] out_tags@[q];
                    &&& tg.name@ == analysis.tags@[q].name@
                    &&& tg.library_id@ == library_id@
                    &&& exists|w: int|
                        0 <= w < store.tags@.len() && #[trigger] store.tags@[w] == tg
                    &&& pair_in(store.asset_tags@, asset_id@, tg.id@)
                },
            store.libraries@ == old(store).libraries@,
            store.embeddings@ == old(store).embeddings@,
            store.ai_configs@ == old(store).ai_configs@,
    {
        let ghost tags_head = store.tags@;
        let tag = match store.get_or_create_tag(
            new_tag_ids[i].clone(),
            library_id,
            analysis.tags[i].name.as_str(),
            true,
        ) {
            Ok(t) => t,
            Err(e) => {
                proof {
                    // a collision: the drawn id matches an original tag's id
                    // or one drawn for an earlier suggestion
                    let w = choose|w: int|
                        0 <= w < tags_head.len() && (#[trigger] tags_head[w]).id@
                            == new_tag_ids@[i as int]@;
                    if w < tags0.len() {
                        assert(tags_head[w] == tags0[w]);
                        assert(has_tag(tags0, new_tag_ids@[i as int]@));
                    } else {
                        let k = choose|k: int|
                            0 <= k < i as int && (#[trigger] tags_head[w]).id@ == (
                            new_tag_ids@[k])@;
                        assert(new_tag_ids@[k]@ == new_tag_ids@[i as int]@);
                    }
                }
                return Err(e);
            },
        };
        proof {
            assert(tags_head.len() <= store.tags@.len());
            assert(forall|w: int| 0 <= w < tags_head.len() ==> #[trigger] store.tags@[w]
                == tags_head[w]);
            assert(store.tags@.take(tags0.len() as int) =~= tags0);
            assert forall|w: int|
                tags0.len() <= w < store.tags@.len() implies exists|k: int|
                0 <= k < i + 1 && (#[trigger] store.tags@[w]).id@ == (new_tag_ids@[k])@ by {
                if w < tags_head.len() {
                    let k = choose|k: int|
                        0 <= k < i as int && (#[trigger] tags_head[w]).id@ == (new_tag_ids@[k])@;
                    assert(store.tags@[w].id@ == new_tag_ids@[k]@);
                } else {
                    // the row just created carries the freshly drawn id
                    assert(store.tags@[w].id@ == new_tag_ids@[i as int]@);
                }
            }
        }
        let ghost tags_after = store.tags@;
        let ghost pairs_before = store.asset_tags@;
        let one = vec![tag.id.clone()];
        store.assign_tags(asset_id, &one);
        proof {
            assert(one@[0]@ == tag.id@);
            assert(pair_in(store.asset_tags@, asset_id@, tag.id@));
            assert(forall|w: int|
                0 <= w < pairs_before.len() ==> #[trigger] store.asset_tags@[w]
                    == pairs_before[w]);
            assert(store.asset_tags@.take(pairs0.len() as int) =~= pairs0);
            // earlier tags and assignments stay in place
            assert forall|q: int|
                0 <= q < i as int implies pair_in(
                store.asset_tags@,
                asset_id@,
                (#[trigger] out_tags@[q]).id@,
            ) by {
                let w = choose|w: int|
                    0 <= w < pairs_before.len() && (#[trigger] pairs_before[w]).0@ == asset_id@
                        && pairs_before[w].1@ == out_tags@[q].id@;
                assert(store.asset_tags@[w] == pairs_before[w]);
            }
            assert forall|q: int|
                0 <= q < i as int implies exists|w: int|
                0 <= w < store.tags@.len() && #[trigger] store.tags@[w] == #[trigger] out_tags@[q] by {
                let w = choose|w: int|
                    0 <= w < tags_head.len() && #[trigger] tags_head[w] == out_tags@[q];
                assert(store.tags@[w] == out_tags@[q]);
            }
        }
        out_tags.push(tag);
    }
    let suggested = match &analysis.suggested_name {
        Some(s) => Some(s.clone()),
        None => None,
    };
    Ok(AiTagResult { tags: out_tags, description: analysis.description.clone(), suggested_name: suggested })
}

} // verus!
