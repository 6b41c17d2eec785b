//! Algorithm assets as files that are found by their stems.

use vstd::prelude::*;

use super::algorithm::{Algorithm, AlgorithmError, algorithm_file, algorithm_result};
use super::registry::{found_asset, AssetView};
use crate::text::eq_ignoring_case;

verus! {

/// A complete `.alg` file.
#[derive(Debug, Clone, Copy, PartialEq, Eq)]
pub struct EmbeddedAlgorithm<'a> {
    stem: &'a str,
    file_name: &'a str,
    bytes: &'a [u8],
}

impl<'a> View for EmbeddedAlgorithm<'a> {
    type V = AssetView;

    closed spec fn view(&self) -> AssetView {
        AssetView { stem: self.stem@, file_name: self.file_name@, bytes: self.bytes@ }
    }
}

impl<'a> EmbeddedAlgorithm<'a> {
    /// An asset with the stem that device records refer to it by, its file name
    /// and its bytes.
    #[must_use]
    pub fn new(stem: &'a str, file_name: &'a str, bytes: &'a [u8]) -> (asset: Self)
        ensures
            asset@ == (AssetView { stem: stem@, file_name: file_name@, bytes: bytes@ }),
    {
        EmbeddedAlgorithm { stem, file_name, bytes }
    }

    #[must_use]
    pub fn stem(self) -> (stem: &'a str)
        ensures
            stem@ == self@.stem,
    {
        self.stem
    }

    /// Returns the file name with its suffix.
    #[must_use]
    pub fn file_name(self) -> (name: &'a str)
        ensures
            name@ == self@.file_name,
    {
        self.file_name
    }

    #[must_use]
    pub fn bytes(self) -> (bytes: &'a [u8])
        ensures
            bytes@ == self@.bytes,
    {
        self.bytes
    }

    /// Parses and validates the file against its stem.
    ///
    /// # Errors
    ///
    /// Returns [`AlgorithmError`] for the first rule that the file breaks.
    pub fn parse(self) -> (result: Result<Algorithm, AlgorithmError>)
        ensures
            algorithm_result(result, algorithm_file(self@.bytes, Some(self@.stem))),
            result matches Ok(algorithm) ==> algorithm@.valid(),
    {
        Algorithm::parse_for_stem(self.bytes, self.stem)
    }
}

/// The contents of assets.
pub open spec fn asset_views(assets: Seq<EmbeddedAlgorithm<'_>>) -> Seq<AssetView> {
    assets.map_values(|asset: EmbeddedAlgorithm| asset@)
}

/// Finds an asset by its stem up to ASCII case. A file name with its suffix is
/// not a stem.
#[must_use]
pub fn embedded_algorithm<'a>(assets: &[EmbeddedAlgorithm<'a>], stem: &str) -> (found: Option<
    EmbeddedAlgorithm<'a>,
>)
    ensures
        match (found, found_asset(asset_views(assets@), stem@)) {
            (Some(asset), Some(expected)) => asset@ == expected,
            (None, None) => true,
            _ => false,
        },
{
    let ghost views = asset_views(assets@);
    let mut i: usize = 0;
    assert(views.skip(0) =~= views);
    while i < assets.len()
        invariant
            i <= assets@.len(),
            views == asset_views(assets@),
            found_asset(views, stem@) == found_asset(views.skip(i as int), stem@),
        decreases assets@.len() - i,
    {
        let asset: EmbeddedAlgorithm<'a> = assets[i];
        assert(views.skip(i as int)[0] == asset@);
        if eq_ignoring_case(asset.stem(), stem) {
            return Some(asset);
        }
        assert(views.skip(i as int).skip(1) =~= views.skip(i + 1));
        i += 1;
    }
    None
}

} // verus!
