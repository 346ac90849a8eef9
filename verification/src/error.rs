//! What can go wrong while a document is loaded.
use crate::render::{debug_quoted, quoted};
use vstd::prelude::*;
use vstd::string::StringExecFns;

verus! {

/// Why a configuration file could not be loaded. Either failure ends the
/// run: no difference is computed from a document that is not whole.
#[derive(Debug)]
pub enum LoadError {
    /// The file is missing or cannot be read.
    Io { path: String, cause: String },
    /// The content of the file is not a well-formed document.
    Parse { path: String, cause: String },
}

/// The mathematical view of a [`LoadError`].
pub ghost enum LoadErrorView {
    Io { path: Seq<char>, cause: Seq<char> },
    Parse { path: Seq<char>, cause: Seq<char> },
}

impl View for LoadError {
    type V = LoadErrorView;

    open spec fn view(&self) -> LoadErrorView {
        match self {
            LoadError::Io { path, cause } => LoadErrorView::Io { path: path@, cause: cause@ },
            LoadError::Parse { path, cause } => LoadErrorView::Parse { path: path@, cause: cause@ },
        }
    }
}

/// The one line that tells the user what went wrong and with which file:
/// what failed, the cause, and the path in debug form.
pub open spec fn message_of(e: LoadErrorView) -> Seq<char> {
    match e {
        LoadErrorView::Io { path, cause } => "读取配置文件失败！"@ + cause + ": "@ + debug_quoted(
            path,
        ),
        LoadErrorView::Parse { path, cause } => "解析配置文件失败！"@ + cause + ": "@
            + debug_quoted(path),
    }
}

impl LoadError {
    /// The message for the user.
    pub fn message(&self) -> (r: String)
        ensures
            r@ == message_of(self@),
    {
        match self {
            LoadError::Io { path, cause } => {
                let mut out = String::from_str("读取配置文件失败！");
                out.append(cause.as_str());
                out.append(": ");
                out.append(quoted(path.as_str()).as_str());
                out
            },
            LoadError::Parse { path, cause } => {
                let mut out = String::from_str("解析配置文件失败！");
                out.append(cause.as_str());
                out.append(": ");
                out.append(quoted(path.as_str()).as_str());
                out
            },
        }
    }
}

} // verus!
