//! What a client is told: refusals, tables, and that a request is done.
use vstd::prelude::*;

use crate::startup::CancelKey;

verus! {

/// A refusal: whether it ends the session, its code, and what it says.
#[verifier::ext_equal]
pub struct ResponseView {
    pub fatal: bool,
    pub code: Seq<char>,
    pub message: Seq<char>,
    pub detail: Option<Seq<char>>,
    pub hint: Option<Seq<char>>,
}

impl ResponseView {
    /// A refusal that ends the session.
    pub open spec fn fatal(code: Seq<char>, message: Seq<char>) -> ResponseView {
        ResponseView { fatal: true, code, message, detail: None, hint: None }
    }

    /// A refusal after which the session goes on.
    pub open spec fn error(code: Seq<char>, message: Seq<char>) -> ResponseView {
        ResponseView { fatal: false, code, message, detail: None, hint: None }
    }

    pub open spec fn with_hint(self, hint: Seq<char>) -> ResponseView {
        ResponseView { hint: Some(hint), ..self }
    }

    pub open spec fn with_detail(self, detail: Seq<char>) -> ResponseView {
        ResponseView { detail: Some(detail), ..self }
    }
}

/// An `ErrorResponse`: what a client is told when something is refused.
#[derive(Debug, PartialEq, Eq)]
pub struct ErrorResponse {
    pub fatal: bool,
    pub code: &'static str,
    pub message: String,
    pub detail: Option<String>,
    pub hint: Option<String>,
}

impl View for ErrorResponse {
    type V = ResponseView;

    open spec fn view(&self) -> ResponseView {
        ResponseView {
            fatal: self.fatal,
            code: self.code@,
            message: self.message@,
            detail: match self.detail {
                Some(detail) => Some(detail@),
                None => None,
            },
            hint: match self.hint {
                Some(hint) => Some(hint@),
                None => None,
            },
        }
    }
}

impl ErrorResponse {
    /// A refusal that ends the session.
    pub fn fatal(code: &'static str, message: String) -> (response: Self)
        ensures
            response@ == ResponseView::fatal(code@, message@),
    {
        ErrorResponse { fatal: true, code, message, detail: None, hint: None }
    }

    /// A refusal after which the session goes on.
    pub fn error(code: &'static str, message: String) -> (response: Self)
        ensures
            response@ == ResponseView::error(code@, message@),
    {
        ErrorResponse { fatal: false, code, message, detail: None, hint: None }
    }

    pub fn with_hint(self, hint: &str) -> (response: Self)
        ensures
            response@ == self@.with_hint(hint@),
    {
        ErrorResponse {
            fatal: self.fatal,
            code: self.code,
            message: self.message,
            detail: self.detail,
            hint: Some(hint.to_owned()),
        }
    }

    pub fn with_detail(self, detail: &str) -> (response: Self)
        ensures
            response@ == self@.with_detail(detail@),
    {
        ErrorResponse {
            fatal: self.fatal,
            code: self.code,
            message: self.message,
            detail: Some(detail.to_owned()),
            hint: self.hint,
        }
    }
}

/// Where a session stands between transactions.
#[derive(Debug, Clone, Copy, PartialEq, Eq, Hash, Structural)]
pub enum TransactionStatus {
    Idle,
    InTransaction,
    Failed,
}

/// A column of a table: its name, and whether it counts.
#[derive(Debug, Clone, Copy, PartialEq, Eq)]
pub struct Column {
    pub name: &'static str,
    pub counts: bool,
}

/// A column, with its name as a sequence.
#[verifier::ext_equal]
pub struct ColumnView {
    pub name: Seq<char>,
    pub counts: bool,
}

impl View for Column {
    type V = ColumnView;

    open spec fn view(&self) -> ColumnView {
        ColumnView { name: self.name@, counts: self.counts }
    }
}

impl Column {
    /// A column of texts.
    pub fn text(name: &'static str) -> (column: Self)
        ensures
            column@ == (ColumnView { name: name@, counts: false }),
    {
        Column { name, counts: false }
    }

    /// A column of counts.
    pub fn count(name: &'static str) -> (column: Self)
        ensures
            column@ == (ColumnView { name: name@, counts: true }),
    {
        Column { name, counts: true }
    }
}

/// One message to a client.
#[derive(Debug, PartialEq, Eq)]
pub enum Reply {
    Parameter { name: String, value: String },
    Key(CancelKey),
    Ready(TransactionStatus),
    Error(ErrorResponse),
    EmptyQuery,
    Columns(Vec<Column>),
    Row(Vec<Option<String>>),
    Complete(&'static str),
}

/// One message to a client, with texts as sequences.
pub enum ReplyView {
    Parameter { name: Seq<char>, value: Seq<char> },
    Key(CancelKey),
    Ready(TransactionStatus),
    Error(ResponseView),
    EmptyQuery,
    Columns(Seq<ColumnView>),
    Row(Seq<Option<Seq<char>>>),
    Complete(Seq<char>),
}

/// The cells of a row.
pub open spec fn cells(row: Seq<Option<String>>) -> Seq<Option<Seq<char>>> {
    Seq::new(
        row.len(),
        |k: int|
            match row[k] {
                Some(cell) => Some(cell@),
                None => None,
            },
    )
}

/// The columns of a table.
pub open spec fn columns_of(columns: Seq<Column>) -> Seq<ColumnView> {
    Seq::new(columns.len(), |k: int| columns[k]@)
}

impl View for Reply {
    type V = ReplyView;

    open spec fn view(&self) -> ReplyView {
        match self {
            Reply::Parameter { name, value } => ReplyView::Parameter { name: name@, value: value@ },
            Reply::Key(key) => ReplyView::Key(*key),
            Reply::Ready(status) => ReplyView::Ready(*status),
            Reply::Error(response) => ReplyView::Error(response@),
            Reply::EmptyQuery => ReplyView::EmptyQuery,
            Reply::Columns(columns) => ReplyView::Columns(columns_of(columns@)),
            Reply::Row(row) => ReplyView::Row(cells(row@)),
            Reply::Complete(tag) => ReplyView::Complete(tag@),
        }
    }
}

/// The messages to a client, in the order in which they are sent.
pub open spec fn replies(list: Seq<Reply>) -> Seq<ReplyView> {
    Seq::new(list.len(), |k: int| list[k]@)
}

} // verus!
