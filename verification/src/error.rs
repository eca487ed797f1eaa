//! The errors of the wire format and of the library as a whole.

use vstd::prelude::*;

use crate::text;

verus! {

/// What a failed input or output operation was, as far as the library tells
/// such failures apart.
#[derive(Clone, Copy, Debug, PartialEq, Eq, Structural)]
pub enum IoErrorKind {
    /// The input ended early.
    UnexpectedEof,
    /// The other end reset the connection.
    ConnectionReset,
    /// The other end no longer reads.
    BrokenPipe,
    /// The named file does not exist.
    NotFound,
    /// Any other failure.
    Other,
}

/// A failed input or output operation.
#[derive(Debug)]
pub struct IoError {
    pub kind: IoErrorKind,
    pub message: String,
}

/// The model of an [`IoError`].
pub struct IoErrorView {
    pub kind: IoErrorKind,
    pub message: Seq<char>,
}

impl View for IoError {
    type V = IoErrorView;

    open spec fn view(&self) -> IoErrorView {
        IoErrorView { kind: self.kind, message: self.message@ }
    }
}

/// An error of the wire format.
#[derive(Debug)]
pub enum ProtocolError {
    Io(IoError),
    Protocol(String),
}

/// The model of a [`ProtocolError`].
pub enum ProtocolErrorView {
    Io(IoErrorView),
    Protocol(Seq<char>),
}

impl View for ProtocolError {
    type V = ProtocolErrorView;

    open spec fn view(&self) -> ProtocolErrorView {
        match self {
            ProtocolError::Io(error) => ProtocolErrorView::Io(error@),
            ProtocolError::Protocol(message) => ProtocolErrorView::Protocol(message@),
        }
    }
}

/// An error of the library.
#[derive(Debug)]
pub enum LanFlowError {
    Io(IoError),
    Protocol(String),
    Auth(String),
    Database(String),
    NotFound(String),
    InvalidInput(String),
    Cancelled,
    Internal(String),
}

/// The model of a [`LanFlowError`].
pub enum ErrorView {
    Io(IoErrorView),
    Protocol(Seq<char>),
    Auth(Seq<char>),
    Database(Seq<char>),
    NotFound(Seq<char>),
    InvalidInput(Seq<char>),
    Cancelled,
    Internal(Seq<char>),
}

impl View for LanFlowError {
    type V = ErrorView;

    open spec fn view(&self) -> ErrorView {
        match self {
            LanFlowError::Io(error) => ErrorView::Io(error@),
            LanFlowError::Protocol(message) => ErrorView::Protocol(message@),
            LanFlowError::Auth(message) => ErrorView::Auth(message@),
            LanFlowError::Database(message) => ErrorView::Database(message@),
            LanFlowError::NotFound(message) => ErrorView::NotFound(message@),
            LanFlowError::InvalidInput(message) => ErrorView::InvalidInput(message@),
            LanFlowError::Cancelled => ErrorView::Cancelled,
            LanFlowError::Internal(message) => ErrorView::Internal(message@),
        }
    }
}

/// The text that people are shown for a failed input or output operation.
pub open spec fn io_text(error: IoErrorView) -> Seq<char> {
    "I/O 错误: "@ + error.message
}

impl ProtocolErrorView {
    /// The text that people are shown.
    pub open spec fn text(self) -> Seq<char> {
        match self {
            ProtocolErrorView::Io(error) => io_text(error),
            ProtocolErrorView::Protocol(message) => "协议错误: "@ + message,
        }
    }

    /// The same error as one of the library.
    pub open spec fn lifted(self) -> ErrorView {
        match self {
            ProtocolErrorView::Io(error) => ErrorView::Io(error),
            ProtocolErrorView::Protocol(message) => ErrorView::Protocol(message),
        }
    }
}

impl ErrorView {
    /// The text that people are shown.
    pub open spec fn text(self) -> Seq<char> {
        match self {
            ErrorView::Io(error) => io_text(error),
            ErrorView::Protocol(message) => "协议错误: "@ + message,
            ErrorView::Auth(message) => "认证失败: "@ + message,
            ErrorView::Database(message) => "数据库错误: "@ + message,
            ErrorView::NotFound(message) => "未找到: "@ + message,
            ErrorView::InvalidInput(message) => "输入无效: "@ + message,
            ErrorView::Cancelled => "任务已取消"@,
            ErrorView::Internal(message) => "内部错误: "@ + message,
        }
    }
}

impl ProtocolError {
    /// The text that people are shown.
    pub fn message(&self) -> (text: String)
        ensures
            text@ == self@.text(),
    {
        match self {
            ProtocolError::Io(error) => text::joined("I/O 错误: ", error.message.as_str()),
            ProtocolError::Protocol(message) => text::joined("协议错误: ", message.as_str()),
        }
    }
}

impl LanFlowError {
    /// The text that people are shown.
    pub fn message(&self) -> (text: String)
        ensures
            text@ == self@.text(),
    {
        match self {
            LanFlowError::Io(error) => text::joined("I/O 错误: ", error.message.as_str()),
            LanFlowError::Protocol(message) => text::joined("协议错误: ", message.as_str()),
            LanFlowError::Auth(message) => text::joined("认证失败: ", message.as_str()),
            LanFlowError::Database(message) => text::joined("数据库错误: ", message.as_str()),
            LanFlowError::NotFound(message) => text::joined("未找到: ", message.as_str()),
            LanFlowError::InvalidInput(message) => text::joined("输入无效: ", message.as_str()),
            LanFlowError::Cancelled => "任务已取消".to_owned(),
            LanFlowError::Internal(message) => text::joined("内部错误: ", message.as_str()),
        }
    }

    /// An error of the wire format as one of the library.
    pub fn from_protocol(error: ProtocolError) -> (lifted: LanFlowError)
        ensures
            lifted@ == error@.lifted(),
    {
        match error {
            ProtocolError::Io(error) => LanFlowError::Io(error),
            ProtocolError::Protocol(message) => LanFlowError::Protocol(message),
        }
    }
}

/// The text of an error ends with what was told of it, behind what kind of
/// error it is.
pub proof fn law_errors_tell_what_happened(message: Seq<char>)
    ensures
        ErrorView::Protocol(message).text() == "协议错误: "@ + message,
        ErrorView::Auth(message).text() == "认证失败: "@ + message,
        ErrorView::Database(message).text() == "数据库错误: "@ + message,
        ErrorView::NotFound(message).text() == "未找到: "@ + message,
        ErrorView::InvalidInput(message).text() == "输入无效: "@ + message,
        ErrorView::Internal(message).text() == "内部错误: "@ + message,
        ErrorView::Cancelled.text() == "任务已取消"@,
        ProtocolErrorView::Protocol(message).lifted().text() == ProtocolErrorView::Protocol(
            message,
        ).text(),
{
}

} // verus!
