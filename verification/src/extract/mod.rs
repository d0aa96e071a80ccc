//! Phase two of collection: extraction of links, regions and frontmatter
//! from the files the walk found.

pub mod config;
pub mod engine;
pub mod frontmatter;
pub mod links;
pub mod regions;
pub mod yaml;

use vstd::prelude::*;
use crate::errors::LifeError;
use crate::extract::config::{
    DefView, ExtractorDef, builtin_defs, builtin_extractors, defs_view, extractor_for, find_extractor,
    lemma_first_match_in_range, lowercase,
};
use crate::extract::engine::{extract, extracted_matches};
use crate::extract::regions::file_regions;
use crate::types::{Extracted, WalkedFile, opt_seq};

verus! {

/// Result of extraction across multiple files.
pub struct ExtractionResult {
    pub extracted: Vec<Extracted>,
    pub warnings: Vec<crate::errors::LifeWarning>,
}

/// A file is extracted when an extractor claims it and its text was read.
pub open spec fn is_extracted(f: WalkedFile, c: Option<String>, defs: Seq<DefView>) -> bool {
    extractor_for(f.path@, defs) is Some && c is Some
}

/// The indices, among the first `n` files, of those that are extracted.
pub open spec fn extracted_upto(
    files: Seq<WalkedFile>,
    contents: Seq<Option<String>>,
    defs: Seq<DefView>,
    n: int,
) -> Seq<int>
    decreases n,
{
    if n <= 0 {
        seq![]
    } else {
        extracted_upto(files, contents, defs, n - 1) + if is_extracted(
            files[n - 1],
            contents[n - 1],
            defs,
        ) {
            seq![n - 1]
        } else {
            seq![]
        }
    }
}

/// The paths, among the first `n` files, of those no extractor claims.
pub open spec fn leaves_upto(files: Seq<WalkedFile>, defs: Seq<DefView>, n: int) -> Seq<Seq<char>>
    decreases n,
{
    if n <= 0 {
        seq![]
    } else {
        leaves_upto(files, defs, n - 1) + if extractor_for(files[n - 1].path@, defs) is None {
            seq![files[n - 1].path@]
        } else {
            seq![]
        }
    }
}

/// The warnings are `NoExtractor` warnings for the given paths, in order.
pub open spec fn leaf_warnings(ws: Seq<crate::errors::LifeWarning>, paths: Seq<Seq<char>>) -> bool {
    &&& ws.len() == paths.len()
    &&& forall|k: int|
        0 <= k < ws.len() ==> match #[trigger] ws[k] {
            crate::errors::LifeWarning::NoExtractor { file } => file@ == paths[k],
            _ => false,
        }
}

/// The text read of an extracted file.
pub open spec fn text_of(c: Option<String>) -> Seq<char> {
    match c {
        Some(s) => s@,
        None => seq![],
    }
}

/// The definition that claims a file.
pub open spec fn def_of(f: WalkedFile, defs: Seq<DefView>) -> DefView {
    defs[extractor_for(f.path@, defs)->0]
}

/// What extraction across files returns: on success, a `NoExtractor`
/// warning for each file no extractor claims and the extraction of each
/// file that is claimed and was read, in order; otherwise the error of the
/// first such file whose regions are refused.
pub open spec fn extraction_matches(
    r: Result<ExtractionResult, LifeError>,
    files: Seq<WalkedFile>,
    contents: Seq<Option<String>>,
    defs: Seq<DefView>,
    home: Option<Seq<char>>,
) -> bool {
    let ix = extracted_upto(files, contents, defs, files.len() as int);
    match r {
        Ok(res) => {
            &&& leaf_warnings(res.warnings@, leaves_upto(files, defs, files.len() as int))
            &&& res.extracted@.len() == ix.len()
            &&& forall|k: int|
                0 <= k < ix.len() ==> extracted_matches(
                    Ok(#[trigger] res.extracted@[k]),
                    files[ix[k]].path@,
                    text_of(contents[ix[k]]),
                    def_of(files[ix[k]], defs),
                    home,
                )
        },
        Err(e) => exists|k: int|
            0 <= k < ix.len() && (forall|j: int|
                0 <= j < k ==> (#[trigger] file_regions(
                    files[ix[j]].path@,
                    text_of(contents[ix[j]]),
                    def_of(files[ix[j]], defs).line_comment,
                )) is Ok) && extracted_matches(
                Err(e),
                files[ix[k]].path@,
                text_of(contents[ix[k]]),
                def_of(files[ix[k]], defs),
                home,
            ),
    }
}

/// Run extraction over files with the given extractors. `contents[i]` is
/// the text of `files[i]` when it was read (binary or unreadable files have
/// none and are skipped). A file no extractor claims is a leaf and gets a
/// `NoExtractor` warning.
pub fn extract_files(
    files: &[WalkedFile],
    contents: &[Option<String>],
    extractors: &[ExtractorDef],
    home: Option<&str>,
) -> (r: Result<ExtractionResult, LifeError>)
    requires
        contents@.len() == files@.len(),
    ensures
        extraction_matches(r, files@, contents@, defs_view(extractors@), opt_seq(home)),
{
    let ghost defs = defs_view(extractors@);
    let mut result = ExtractionResult { extracted: Vec::new(), warnings: Vec::new() };
    let mut i: usize = 0;
    while i < files.len()
        invariant
            contents@.len() == files@.len(),
            defs == defs_view(extractors@),
            i <= files@.len(),
            leaf_warnings(result.warnings@, leaves_upto(files@, defs, i as int)),
            result.extracted@.len() == extracted_upto(files@, contents@, defs, i as int).len(),
            forall|k: int|
                0 <= k < extracted_upto(files@, contents@, defs, i as int).len()
                    ==> #[trigger] extracted_upto(files@, contents@, defs, i as int)[k] < i,
            forall|k: int|
                0 <= k < result.extracted@.len() ==> extracted_matches(
                    Ok(#[trigger] result.extracted@[k]),
                    files@[extracted_upto(files@, contents@, defs, i as int)[k]].path@,
                    text_of(contents@[extracted_upto(files@, contents@, defs, i as int)[k]]),
                    def_of(files@[extracted_upto(files@, contents@, defs, i as int)[k]], defs),
                    opt_seq(home),
                ),
        decreases files@.len() - i,
    {
        let file = &files[i];
        let ghost ix = extracted_upto(files@, contents@, defs, i as int);
        let ghost ix2 = extracted_upto(files@, contents@, defs, i + 1);
        let ghost lv = leaves_upto(files@, defs, i + 1);
        match find_extractor(file.path.as_str(), extractors) {
            None => {
                let ghost before = result.warnings@;
                result.warnings.push(crate::errors::LifeWarning::NoExtractor { file: file.path.clone() });
                proof {
                    assert(ix2 =~= ix);
                    assert(lv =~= leaves_upto(files@, defs, i as int).push(file.path@));
                    assert forall|k: int| 0 <= k < result.warnings@.len() implies match #[trigger] result.warnings@[k] {
                        crate::errors::LifeWarning::NoExtractor { file } => file@ == lv[k],
                        _ => false,
                    } by {
                        if k < before.len() {
                            assert(result.warnings@[k] == before[k]);
                        }
                    }
                }
            },
            Some(def) => {
                proof {
                    assert(lv =~= leaves_upto(files@, defs, i as int));
                }
                match &contents[i] {
                    None => {
                        proof {
                            assert(ix2 =~= ix);
                        }
                    },
                    Some(content) => {
                        proof {
                            assert(ix2 =~= ix.push(i as int));
                            let k0 = extractor_for(file.path@, defs)->0;
                            lemma_first_match_in_range(lowercase(file.path@), defs, 0);
                            assert(defs[k0] == extractors@[k0]@);
                            assert(def@ == defs[k0]);
                        }
                        match extract(&file.path, content.as_str(), def, home) {
                            Ok(x) => {
                                let ghost before = result.extracted@;
                                result.extracted.push(x);
                                proof {
                                    assert forall|k: int| 0 <= k < result.extracted@.len() implies extracted_matches(
                                        Ok(#[trigger] result.extracted@[k]),
                                        files@[ix2[k]].path@,
                                        text_of(contents@[ix2[k]]),
                                        def_of(files@[ix2[k]], defs),
                                        opt_seq(home),
                                    ) by {
                                        if k < before.len() {
                                            assert(result.extracted@[k] == before[k]);
                                            assert(ix2[k] == ix[k]);
                                        }
                                    }
                                }
                            },
                            Err(e) => {
                                proof {
                                    let all = extracted_upto(files@, contents@, defs, files@.len() as int);
                                    lemma_extracted_prefix(files@, contents@, defs, i + 1, files@.len() as int);
                                    assert(all[ix.len() as int] == i as int);
                                    assert forall|j: int| 0 <= j < ix.len() implies (#[trigger] file_regions(
                                        files@[all[j]].path@,
                                        text_of(contents@[all[j]]),
                                        def_of(files@[all[j]], defs).line_comment,
                                    )) is Ok by {
                                        assert(all[j] == ix[j]);
                                        assert(extracted_matches(
                                            Ok(result.extracted@[j]),
                                            files@[ix[j]].path@,
                                            text_of(contents@[ix[j]]),
                                            def_of(files@[ix[j]], defs),
                                            opt_seq(home),
                                        ));
                                    }
                                    assert(extraction_matches(
                                        Err::<ExtractionResult, LifeError>(e),
                                        files@,
                                        contents@,
                                        defs,
                                        opt_seq(home),
                                    ));
                                }
                                return Err(e);
                            },
                        }
                    },
                }
            },
        }
        i = i + 1;
    }
    Ok(result)
}

/// The extracted indices among the first `n` files begin those among the
/// first `m >= n`.
proof fn lemma_extracted_prefix(
    files: Seq<WalkedFile>,
    contents: Seq<Option<String>>,
    defs: Seq<DefView>,
    n: int,
    m: int,
)
    requires
        0 <= n <= m,
    ensures
        extracted_upto(files, contents, defs, n).len() <= extracted_upto(files, contents, defs, m).len(),
        forall|k: int|
            0 <= k < extracted_upto(files, contents, defs, n).len() ==> #[trigger] extracted_upto(
                files,
                contents,
                defs,
                m,
            )[k] == extracted_upto(files, contents, defs, n)[k],
    decreases m - n,
{
    if n < m {
        lemma_extracted_prefix(files, contents, defs, n, m - 1);
    }
}

/// Run extraction with the built-in extractors.
pub fn run(files: &[WalkedFile], contents: &[Option<String>], home: Option<&str>) -> (r: Result<
    ExtractionResult,
    LifeError,
>)
    requires
        contents@.len() == files@.len(),
    ensures
        extraction_matches(r, files@, contents@, builtin_defs(), opt_seq(home)),
{
    let extractors = builtin_extractors();
    extract_files(files, contents, extractors.as_slice(), home)
}

} // verus!
