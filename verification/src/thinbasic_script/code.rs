//! The loaded script: its file name and its already-normalized text.
//!
//! Reading the file and folding its case is the loader's concern and lives
//! outside the core; a `Code` value starts from text that is already in
//! memory.

use vstd::prelude::*;

use crate::tokenizer::model::{spec_tokenize, Token};
use crate::tokenizer::{get_tokens, tokens_view, TokenInfo};

verus! {

/// Spec-level content of a `Code` value.
pub struct CodeView {
    pub name: Seq<char>,
    pub content: Seq<char>,
}

/// A script under analysis: the name it was loaded from and its text.
pub struct Code {
    pub main_file_name: String,
    file_content: String,
}

impl View for Code {
    type V = CodeView;

    closed spec fn view(&self) -> CodeView {
        CodeView { name: self.main_file_name@, content: self.file_content@ }
    }
}

impl Code {
    /// The text is short enough that the lexer's 32-bit line and column
    /// counters cannot overflow.
    pub open spec fn wf(&self) -> bool {
        self@.content.len() + 32 < u32::MAX
    }

    /// Wraps a script whose text has already been loaded and normalized.
    pub fn new(main_file_name: &str, file_content: &str) -> (code: Code)
        requires
            file_content@.len() + 32 < u32::MAX,
        ensures
            code@.name == main_file_name@,
            code@.content == file_content@,
            code.wf(),
    {
        Code { main_file_name: main_file_name.to_owned(), file_content: file_content.to_owned() }
    }

    /// The name the script was loaded from.
    pub fn file_name(&self) -> (name: &String)
        ensures
            name@ == self@.name,
    {
        &self.main_file_name
    }

    /// The script's text.
    pub fn get_file_content(&self) -> (content: &String)
        ensures
            content@ == self@.content,
    {
        &self.file_content
    }

    /// The script's complete token stream.
    pub fn get_tokens(&self) -> (tokens: Vec<TokenInfo>)
        requires
            self.wf(),
        ensures
            tokens_view(tokens@) == spec_tokenize(self@.content),
    {
        get_tokens(self.file_content.as_str())
    }
}

} // verus!
