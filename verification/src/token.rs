use crate::label::{Label, LabelModel};
use crate::line::{Line, LineModel};
use vstd::prelude::*;

verus! {

/// One recognized construct of the dump, in document order: the format
/// tag, a body record, or a symbol-table record.
#[derive(Clone, Debug, PartialEq, Eq)]
pub enum Token {
    Tag,
    Line { line: Line },
    Label { label: Label },
}

/// The mathematical shape of a [`Token`].
pub enum TokenModel {
    Tag,
    Line { line: LineModel },
    Label { label: LabelModel },
}

impl View for Token {
    type V = TokenModel;

    open spec fn view(&self) -> TokenModel {
        match self {
            Token::Tag => TokenModel::Tag,
            Token::Line { line } => TokenModel::Line { line: line@ },
            Token::Label { label } => TokenModel::Label { label: label@ },
        }
    }
}

impl DeepView for Token {
    type V = TokenModel;

    open spec fn deep_view(&self) -> TokenModel {
        self.view()
    }
}

} // verus!
