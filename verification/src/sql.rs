//! Statements for the database server: SQL text, and arguments that travel
//! apart from it.
use vstd::prelude::*;

use crate::json::Json;
use crate::json::JsonView;

verus! {

/// A value that is bound to a parameter of a statement.
pub enum Argument {
    Flag(bool),
    Text(Option<String>),
    Texts(Vec<String>),
    Json(Option<Json>),
}

/// The mathematical content of an [`Argument`].
pub enum ArgumentView {
    Flag(bool),
    Text(Option<Seq<char>>),
    Texts(Seq<Seq<char>>),
    Json(Option<JsonView>),
}

/// A statement and the arguments of its parameters, in order.
pub struct Statement {
    pub sql: String,
    pub arguments: Vec<Argument>,
}

/// The mathematical content of a [`Statement`].
pub struct StatementView {
    pub sql: Seq<char>,
    pub arguments: Seq<ArgumentView>,
}

/// The content of an optional text.
pub open spec fn text_view(text: Option<String>) -> Option<Seq<char>> {
    match text {
        Some(text) => Some(text@),
        None => None,
    }
}

/// The contents of texts.
pub open spec fn text_views(texts: Seq<String>) -> Seq<Seq<char>> {
    texts.map_values(|text: String| text@)
}

/// The content of an optional JSON value.
pub open spec fn json_view(value: Option<Json>) -> Option<JsonView> {
    match value {
        Some(value) => Some(value@),
        None => None,
    }
}

impl View for Argument {
    type V = ArgumentView;

    open spec fn view(&self) -> ArgumentView {
        match self {
            Argument::Flag(flag) => ArgumentView::Flag(*flag),
            Argument::Text(text) => ArgumentView::Text(text_view(*text)),
            Argument::Texts(texts) => ArgumentView::Texts(text_views(texts@)),
            Argument::Json(value) => ArgumentView::Json(json_view(*value)),
        }
    }
}

impl View for Statement {
    type V = StatementView;

    open spec fn view(&self) -> StatementView {
        StatementView {
            sql: self.sql@,
            arguments: self.arguments@.map_values(|argument: Argument| argument@),
        }
    }
}

/// The contents of statements.
pub open spec fn statement_views(statements: Seq<Statement>) -> Seq<StatementView> {
    statements.map_values(|statement: Statement| statement@)
}

} // verus!
