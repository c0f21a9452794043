use vstd::prelude::*;
use vstd::string::StrSliceExecFns;

use crate::data::{str_eq, FeatureSchema};

verus! {

/// A feature block as stored in a model artifact: an owned name with its columns.
#[derive(Clone, Debug)]
pub struct ArtifactFeatureBlock {
    pub name: String,
    pub offset: usize,
    pub width: usize,
}

impl ArtifactFeatureBlock {
    /// The blocks of `schema`, in order, with their names copied.
    pub fn from_schema(schema: &FeatureSchema) -> (blocks: Vec<Self>)
        ensures
            blocks@.len() == schema@.len(),
            forall|k: int|
                0 <= k < blocks@.len() ==> {
                    &&& (#[trigger] blocks@[k]).name@ == schema@[k].name@
                    &&& blocks@[k].offset == schema@[k].offset
                    &&& blocks@[k].width == schema@[k].width
                },
    {
        let source = schema.blocks();
        let mut blocks: Vec<Self> = Vec::new();
        let mut k: usize = 0;
        while k < source.len()
            invariant
                k <= source@.len(),
                source@ == schema@,
                blocks@.len() == k,
                forall|j: int|
                    0 <= j < k ==> {
                        &&& (#[trigger] blocks@[j]).name@ == source@[j].name@
                        &&& blocks@[j].offset == source@[j].offset
                        &&& blocks@[j].width == source@[j].width
                    },
            decreases source@.len() - k,
        {
            let block = source[k];
            blocks.push(ArtifactFeatureBlock { name: block.name.to_owned(), offset: block.offset, width: block.width });
            k = k + 1;
        }
        blocks
    }
}

/// Feature layout of the sentence model of a model bundle.
#[derive(Clone, Copy, Debug, PartialEq, Eq, Structural)]
pub struct BurnSentenceFeatureConfig {
    pub encoded_left: usize,
    pub encoded_right: usize,
    pub count_radius: usize,
    pub feature_dim: usize,
    pub hidden_dim: usize,
}

impl Default for BurnSentenceFeatureConfig {
    fn default() -> (config: Self)
        ensures
            config == (BurnSentenceFeatureConfig {
                encoded_left: 7,
                encoded_right: 7,
                count_radius: 24,
                feature_dim: 0,
                hidden_dim: 64,
            }),
    {
        BurnSentenceFeatureConfig {
            encoded_left: 7,
            encoded_right: 7,
            count_radius: 24,
            feature_dim: 0,
            hidden_dim: 64,
        }
    }
}

/// Failure to load or run a model bundle, with its message.
#[derive(Clone, Debug)]
pub struct ModelArtifactError {
    message: String,
}

impl ModelArtifactError {
    pub fn new(message: &str) -> (e: Self)
        ensures
            e.message_view() == message@,
    {
        ModelArtifactError { message: message.to_owned() }
    }

    pub closed spec fn message_view(&self) -> Seq<char> {
        self.message@
    }

    pub fn message(&self) -> (m: &str)
        ensures
            m@ == self.message_view(),
    {
        self.message.as_str()
    }
}

/// What is wrong with a stored logistic model.
#[derive(Clone, Copy, Debug, PartialEq, Eq, Structural)]
pub enum LogisticArtifactProblem {
    /// The format tag is not the current one.
    WrongFormat,
    /// The feature width is zero.
    NoFeatures,
    /// The feature width and the number of weights differ.
    WidthMismatch,
}

/// Checks the header of a stored logistic model: its format tag must be
/// `expected`, its feature width positive and equal to its number of weights
/// (checked in that order).
pub fn check_logistic_artifact(format: &str, expected: &str, feature_dim: usize, weight_count: usize) -> (r: Result<
    (),
    LogisticArtifactProblem,
>)
    ensures
        r == (if format@ != expected@ {
            Err(LogisticArtifactProblem::WrongFormat)
        } else if feature_dim == 0 {
            Err(LogisticArtifactProblem::NoFeatures)
        } else if weight_count != feature_dim {
            Err(LogisticArtifactProblem::WidthMismatch)
        } else {
            Ok(())
        }),
{
    if !str_eq(format, expected) {
        Err(LogisticArtifactProblem::WrongFormat)
    } else if feature_dim == 0 {
        Err(LogisticArtifactProblem::NoFeatures)
    } else if weight_count != feature_dim {
        Err(LogisticArtifactProblem::WidthMismatch)
    } else {
        Ok(())
    }
}

/// What is wrong with the manifest of a sentence model bundle.
#[derive(Clone, Copy, Debug, PartialEq, Eq, Structural)]
pub enum ManifestProblem {
    /// The bundle format is not the supported one.
    UnsupportedFormat,
    /// The model name is not the supported one.
    UnsupportedName,
    /// The engine is not the supported sentence engine.
    UnsupportedEngine,
    /// The hidden width is zero.
    NoHiddenDim,
    /// The bundle lists no payload file.
    NoFiles,
}

/// The bundle format the sentence model loader reads.
pub open spec fn bundle_format() -> Seq<char> {
    "charstreamer.model-bundle.v1"@
}

/// The model name the sentence model loader reads.
pub open spec fn bundle_model_name() -> Seq<char> {
    "charstreamer-default"@
}

/// The engine of the sentence boundary model.
pub open spec fn sentence_engine() -> Seq<char> {
    "burn_shallow_mlp_sentence_v1"@
}

/// Checks the manifest of a sentence model bundle: its format, model name and
/// engine must be the supported ones, its hidden width positive, and it must
/// list a payload file (checked in that order).
pub fn check_sentence_manifest(
    format: &str,
    name: &str,
    engine: &str,
    hidden_dim: usize,
    file_count: usize,
) -> (r: Result<(), ManifestProblem>)
    ensures
        r == (if format@ != bundle_format() {
            Err(ManifestProblem::UnsupportedFormat)
        } else if name@ != bundle_model_name() {
            Err(ManifestProblem::UnsupportedName)
        } else if engine@ != sentence_engine() {
            Err(ManifestProblem::UnsupportedEngine)
        } else if hidden_dim == 0 {
            Err(ManifestProblem::NoHiddenDim)
        } else if file_count == 0 {
            Err(ManifestProblem::NoFiles)
        } else {
            Ok(())
        }),
{
    if !str_eq(format, "charstreamer.model-bundle.v1") {
        Err(ManifestProblem::UnsupportedFormat)
    } else if !str_eq(name, "charstreamer-default") {
        Err(ManifestProblem::UnsupportedName)
    } else if !str_eq(engine, "burn_shallow_mlp_sentence_v1") {
        Err(ManifestProblem::UnsupportedEngine)
    } else if hidden_dim == 0 {
        Err(ManifestProblem::NoHiddenDim)
    } else if file_count == 0 {
        Err(ManifestProblem::NoFiles)
    } else {
        Ok(())
    }
}

/// `role` marks a sentence boundary payload.
pub open spec fn is_sentence_role(role: Option<Seq<char>>) -> bool {
    role == Some("sentence_boundary"@)
}

/// `path` names a MessagePack payload.
pub open spec fn is_mpk_path(path: Seq<char>) -> bool {
    path.len() >= 4 && path.subrange(path.len() - 4, path.len() as int) == ".mpk"@
}

/// The role of a payload file, by its view.
pub open spec fn role_view(role: Option<String>) -> Option<Seq<char>> {
    match role {
        Some(r) => Some(r@),
        None => None,
    }
}

fn ends_with_mpk(path: &str) -> (r: bool)
    ensures
        r == is_mpk_path(path@),
{
    proof {
        reveal_strlit(".mpk");
    }
    let n = path.unicode_len();
    if n < 4 {
        return false;
    }
    let r = path.get_char(n - 4) == '.' && path.get_char(n - 3) == 'm' && path.get_char(n - 2) == 'p'
        && path.get_char(n - 1) == 'k';
    proof {
        let tail = path@.subrange(n - 4, n as int);
        if r {
            assert(tail =~= ".mpk"@);
        } else {
            assert(tail[0] != '.' || tail[1] != 'm' || tail[2] != 'p' || tail[3] != 'k');
        }
    }
    r
}

/// Which payload file of a bundle holds the sentence boundary model: the first
/// whose role says so, else the first with a `.mpk` path, else none.
pub fn sentence_model_file_index(paths: &[String], roles: &[Option<String>]) -> (r: Option<usize>)
    requires
        roles@.len() == paths@.len(),
    ensures
        (exists|k: int| 0 <= k < roles@.len() && is_sentence_role(role_view(#[trigger] roles@[k]))) ==> (r matches Some(
            i,
        ) && i < roles@.len() && is_sentence_role(role_view(roles@[i as int])) && forall|k: int|
            0 <= k < i ==> !is_sentence_role(role_view(#[trigger] roles@[k]))),
        !(exists|k: int| 0 <= k < roles@.len() && is_sentence_role(role_view(#[trigger] roles@[k]))) ==> match r {
            Some(i) => i < paths@.len() && is_mpk_path(paths@[i as int]@) && forall|k: int|
                0 <= k < i ==> !is_mpk_path((#[trigger] paths@[k])@),
            None => forall|k: int| 0 <= k < paths@.len() ==> !is_mpk_path((#[trigger] paths@[k])@),
        },
{
    let mut k: usize = 0;
    while k < roles.len()
        invariant
            k <= roles@.len(),
            forall|j: int| 0 <= j < k ==> !is_sentence_role(role_view(#[trigger] roles@[j])),
        decreases roles@.len() - k,
    {
        let hit = match &roles[k] {
            Some(role) => str_eq(role.as_str(), "sentence_boundary"),
            None => false,
        };
        if hit {
            return Some(k);
        }
        k = k + 1;
    }
    let mut k: usize = 0;
    while k < paths.len()
        invariant
            k <= paths@.len(),
            roles@.len() == paths@.len(),
            forall|j: int| 0 <= j < roles@.len() ==> !is_sentence_role(role_view(#[trigger] roles@[j])),
            forall|j: int| 0 <= j < k ==> !is_mpk_path((#[trigger] paths@[j])@),
        decreases paths@.len() - k,
    {
        if ends_with_mpk(paths[k].as_str()) {
            return Some(k);
        }
        k = k + 1;
    }
    None
}

} // verus!
