//! Collections of asset files that are found by their stems.

use vstd::prelude::*;

use crate::text::same_ignoring_case;

verus! {

/// The contents of an asset file.
pub struct AssetView {
    pub stem: Seq<char>,
    pub file_name: Seq<char>,
    pub bytes: Seq<u8>,
}

/// The first asset whose stem is the given one up to ASCII case.
pub open spec fn found_asset(assets: Seq<AssetView>, stem: Seq<char>) -> Option<AssetView>
    decreases assets.len(),
{
    if assets.len() == 0 {
        None
    } else if same_ignoring_case(assets[0].stem, stem) {
        Some(assets[0])
    } else {
        found_asset(assets.skip(1), stem)
    }
}

/// An asset that is found is one of the collection and has the stem.
pub proof fn law_found_assets_have_the_stem(assets: Seq<AssetView>, stem: Seq<char>)
    ensures
        found_asset(assets, stem) matches Some(asset) ==> assets.contains(asset)
            && same_ignoring_case(asset.stem, stem),
        found_asset(assets, stem) is None ==> forall|i: int|
            0 <= i < assets.len() ==> !same_ignoring_case(#[trigger] assets[i].stem, stem),
    decreases assets.len(),
{
    if assets.len() > 0 {
        if same_ignoring_case(assets[0].stem, stem) {
            assert(assets.contains(assets[0]));
        } else {
            let rest = assets.skip(1);
            law_found_assets_have_the_stem(rest, stem);
            if let Some(asset) = found_asset(rest, stem) {
                let at = choose|at: int| 0 <= at < rest.len() && rest[at] == asset;
                assert(assets[at + 1] == asset);
            } else {
                assert forall|i: int| 0 <= i < assets.len() implies !same_ignoring_case(
                    #[trigger] assets[i].stem,
                    stem,
                ) by {
                    if i > 0 {
                        assert(assets[i] == rest[i - 1]);
                    }
                }
            }
        }
    }
}

} // verus!
