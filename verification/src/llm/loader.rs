//! A model that runs in the process: where its file is.

use vstd::prelude::*;

verus! {

/// The setting for the file of the model.
pub const MODEL_PATH_ENV: &'static str = "SEMANTEX_LLM_PATH";

/// A model that runs in the process.
#[derive(Debug, Clone)]
pub struct OnnxLlm {
    /// The file that it was loaded from.
    pub model_path: String,
}

/// What is at a path.
#[derive(Debug, Clone)]
pub enum ModelFile {
    Nothing,
    /// Something, of which no more can be read.
    Unreadable,
    RegularFile,
    /// A directory, or something else that is no regular file.
    Other,
}

/// Why a model cannot be loaded.
#[derive(Debug, Clone)]
pub enum LoadError {
    Metadata(String),
    NotRegularFile(String),
}

/// What a [`LoadError`] says.
pub enum LoadErrorView {
    Metadata(Seq<char>),
    NotRegularFile(Seq<char>),
}

impl View for LoadError {
    type V = LoadErrorView;

    open spec fn view(&self) -> LoadErrorView {
        match self {
            LoadError::Metadata(p) => LoadErrorView::Metadata(p@),
            LoadError::NotRegularFile(p) => LoadErrorView::NotRegularFile(p@),
        }
    }
}

impl LoadError {
    /// The error in words.
    pub fn message(&self) -> (r: String)
        ensures
            r@ == (match self@ {
                LoadErrorView::Metadata(p) => "reading metadata for LLM model at "@ + p,
                LoadErrorView::NotRegularFile(p) => p + " is not a regular file"@,
            }),
    {
        match self {
            LoadError::Metadata(p) => "reading metadata for LLM model at ".to_owned().concat(p),
            LoadError::NotRegularFile(p) => p.clone().concat(" is not a regular file"),
        }
    }
}

impl OnnxLlm {
    /// The model at a path: none where nothing is there, and an error where what is there is no
    /// regular file.
    pub fn load_from_path(path: &str, file: &ModelFile) -> (r: Result<Option<OnnxLlm>, LoadError>)
        ensures
            (match r {
                Ok(Some(m)) => Ok(Some(m.model_path@)),
                Ok(None) => Ok(None),
                Err(e) => Err(e@),
            }) == (match *file {
                ModelFile::Nothing => Ok(None),
                ModelFile::Unreadable => Err(LoadErrorView::Metadata(path@)),
                ModelFile::Other => Err(LoadErrorView::NotRegularFile(path@)),
                ModelFile::RegularFile => Ok(Some(path@)),
            }),
    {
        match file {
            ModelFile::Nothing => Ok(None),
            ModelFile::Unreadable => Err(LoadError::Metadata(path.to_owned())),
            ModelFile::Other => Err(LoadError::NotRegularFile(path.to_owned())),
            ModelFile::RegularFile => Ok(Some(OnnxLlm { model_path: path.to_owned() })),
        }
    }

    /// The model that is configured, given the setting `SEMANTEX_LLM_PATH` and what is there: none
    /// unless it is set.
    pub fn load(setting: Option<&str>, file: &ModelFile) -> (r: Result<Option<OnnxLlm>, LoadError>)
        ensures
            (match r {
                Ok(Some(m)) => Ok(Some(m.model_path@)),
                Ok(None) => Ok(None),
                Err(e) => Err(e@),
            }) == (match (setting, *file) {
                (None, _) => Ok(None),
                (Some(_), ModelFile::Nothing) => Ok(None),
                (Some(p), ModelFile::Unreadable) => Err(LoadErrorView::Metadata(p@)),
                (Some(p), ModelFile::Other) => Err(LoadErrorView::NotRegularFile(p@)),
                (Some(p), ModelFile::RegularFile) => Ok(Some(p@)),
            }),
    {
        match setting {
            Some(p) => OnnxLlm::load_from_path(p, file),
            None => Ok(None),
        }
    }
}

} // verus!
