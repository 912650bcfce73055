//! The closed set of failures the library reports.

use vstd::prelude::*;

verus! {

/// Why an operation on a document failed.
#[derive(Clone, Copy, PartialEq, Eq, Debug, Structural)]
pub enum EditError {
    /// The document does not hold the key literal `"sExtOptions"`.
    BlockNotFound,
    /// The key literal is not followed by a `:`.
    MalformedBlockHeader,
    /// The value after the `:` does not open with `{`.
    BlockNotObject,
    /// The opening brace has no matching closing brace.
    UnterminatedBlock,
    /// No line of the block mentions the local identifier to delete.
    KeyNotFound,
    /// The block already holds every local identifier that was to be inserted.
    DuplicateLocalId,
}

impl EditError {
    /// The message shown to the user for each failure.
    pub open spec fn message_text(self) -> Seq<char> {
        match self {
            EditError::BlockNotFound => "未找到 sExtOptions 段落"@,
            EditError::MalformedBlockHeader => "sExtOptions 定义格式不正确"@,
            EditError::BlockNotObject => "sExtOptions 不是对象类型"@,
            EditError::UnterminatedBlock => "未能定位 sExtOptions 的结束位置"@,
            EditError::KeyNotFound => "未找到本地栏目ID"@,
            EditError::DuplicateLocalId => "本地栏目ID重复"@,
        }
    }

    /// The message shown to the user for this failure.
    pub fn message(&self) -> (text: &'static str)
        ensures
            text@ == self.message_text(),
    {
        match self {
            EditError::BlockNotFound => "未找到 sExtOptions 段落",
            EditError::MalformedBlockHeader => "sExtOptions 定义格式不正确",
            EditError::BlockNotObject => "sExtOptions 不是对象类型",
            EditError::UnterminatedBlock => "未能定位 sExtOptions 的结束位置",
            EditError::KeyNotFound => "未找到本地栏目ID",
            EditError::DuplicateLocalId => "本地栏目ID重复",
        }
    }
}

} // verus!
