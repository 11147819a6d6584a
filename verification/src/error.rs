//! Errors the library reports, with the code and message each carries.

use vstd::prelude::*;

use crate::import::ImportError;
use crate::text::{concat, concat3, decimal, decimal_string, owned};

verus! {

/// What went wrong in an operation. Failures of storage and files are
/// carried as their message text.
#[derive(Debug)]
pub enum AppError {
    InvalidInput(String),
    ConfirmationRequired(String),
    AlreadyExists(String),
    InvalidProject(String),
    UnsupportedVersion { found: u32, supported: u32 },
    UnsupportedDatabaseSchema,
    NotWritable(String),
    Io(String),
    Csv(String),
    Database(String),
    Metadata(String),
    Import(ImportError),
}

impl AppError {
    /// The full message of this error.
    pub open spec fn spec_message(&self) -> Seq<char> {
        match self {
            AppError::InvalidInput(m) => "参数无效："@ + m@,
            AppError::ConfirmationRequired(m) => "需要确认："@ + m@,
            AppError::AlreadyExists(m) => "项目已经存在："@ + m@,
            AppError::InvalidProject(m) => "找不到有效的项目："@ + m@,
            AppError::UnsupportedVersion { found, supported } => "项目版本不受支持：当前为 "@ + decimal(
                *found as nat,
            ) + "，本应用支持 "@ + decimal(*supported as nat),
            AppError::UnsupportedDatabaseSchema => "项目数据库结构不受支持；仅支持由 v1.0.0 正式版创建的项目"@,
            AppError::NotWritable(m) => "所选目录不可写："@ + m@,
            AppError::Io(m) => "读取或写入文件失败："@ + m@,
            AppError::Csv(m) => "生成 CSV 文件失败："@ + m@,
            AppError::Database(m) => "数据库操作失败："@ + m@,
            AppError::Metadata(m) => "项目元数据格式错误："@ + m@,
            AppError::Import(e) => e.spec_message(),
        }
    }

    /// The full message of this error.
    pub fn message(&self) -> (m: String)
        ensures
            m@ == self.spec_message(),
    {
        match self {
            AppError::InvalidInput(m) => concat("参数无效：", m.as_str()),
            AppError::ConfirmationRequired(m) => concat("需要确认：", m.as_str()),
            AppError::AlreadyExists(m) => concat("项目已经存在：", m.as_str()),
            AppError::InvalidProject(m) => concat("找不到有效的项目：", m.as_str()),
            AppError::UnsupportedVersion { found, supported } => {
                let f = decimal_string(*found as u128);
                let s = decimal_string(*supported as u128);
                let head = concat3("项目版本不受支持：当前为 ", f.as_str(), "，本应用支持 ");
                concat(head.as_str(), s.as_str())
            },
            AppError::UnsupportedDatabaseSchema => owned("项目数据库结构不受支持；仅支持由 v1.0.0 正式版创建的项目"),
            AppError::NotWritable(m) => concat("所选目录不可写：", m.as_str()),
            AppError::Io(m) => concat("读取或写入文件失败：", m.as_str()),
            AppError::Csv(m) => concat("生成 CSV 文件失败：", m.as_str()),
            AppError::Database(m) => concat("数据库操作失败：", m.as_str()),
            AppError::Metadata(m) => concat("项目元数据格式错误：", m.as_str()),
            AppError::Import(e) => e.message(),
        }
    }

    /// The error for a failed file operation on `path`: `NotWritable` when
    /// permission was denied, else `Io` with the failure's text.
    pub fn from_io(permission_denied: bool, failure: String, path: String) -> (e: AppError)
        ensures
            permission_denied ==> (e matches AppError::NotWritable(p) && p@ == path@),
            !permission_denied ==> (e matches AppError::Io(m) && m@ == failure@),
    {
        if permission_denied {
            AppError::NotWritable(path)
        } else {
            AppError::Io(failure)
        }
    }

    /// The code reported for this error.
    pub open spec fn spec_code(&self) -> Seq<char> {
        match self {
            AppError::InvalidInput(_) => "INVALID_INPUT"@,
            AppError::ConfirmationRequired(_) => "CONFIRMATION_REQUIRED"@,
            AppError::AlreadyExists(_) => "PROJECT_EXISTS"@,
            AppError::InvalidProject(_) => "INVALID_PROJECT"@,
            AppError::UnsupportedVersion { .. } => "UNSUPPORTED_VERSION"@,
            AppError::UnsupportedDatabaseSchema => "UNSUPPORTED_DATABASE_SCHEMA"@,
            AppError::NotWritable(_) => "NOT_WRITABLE"@,
            AppError::Io(_) => "FILE_IO"@,
            AppError::Csv(_) => "CSV_EXPORT"@,
            AppError::Database(_) => "DATABASE"@,
            AppError::Metadata(_) => "INVALID_METADATA"@,
            AppError::Import(e) => e.spec_code(),
        }
    }

    /// The message shown to the user: the full message, except for
    /// failures of files, CSV output, the database and the metadata file,
    /// which get a fixed sentence (their text goes to the detail).
    pub open spec fn spec_user_message(&self) -> Seq<char> {
        match self {
            AppError::Io(_) => "无法读写项目文件，请检查路径和权限。"@,
            AppError::Csv(_) => "无法生成 CSV 导出文件。"@,
            AppError::Database(_) => "无法保存项目数据库，数据未被静默忽略。"@,
            AppError::Metadata(_) => "metadata.json 内容损坏或格式不正确。"@,
            _ => self.spec_message(),
        }
    }
}

/// What the interface is sent for a failed operation.
#[derive(Debug)]
pub struct AppErrorPayload {
    pub code: &'static str,
    pub message: String,
    pub detail: Option<String>,
}

impl AppErrorPayload {
    /// The payload for an error: its code, the message for the user, and
    /// the full message as detail.
    pub fn from_error(error: &AppError) -> (p: AppErrorPayload)
        ensures
            p.code@ == error.spec_code(),
            p.message@ == error.spec_user_message(),
            p.detail matches Some(d) && d@ == error.spec_message(),
    {
        let (code, message): (&'static str, String) = match error {
            AppError::InvalidInput(_) => ("INVALID_INPUT", error.message()),
            AppError::ConfirmationRequired(_) => ("CONFIRMATION_REQUIRED", error.message()),
            AppError::AlreadyExists(_) => ("PROJECT_EXISTS", error.message()),
            AppError::InvalidProject(_) => ("INVALID_PROJECT", error.message()),
            AppError::UnsupportedVersion { .. } => ("UNSUPPORTED_VERSION", error.message()),
            AppError::UnsupportedDatabaseSchema => ("UNSUPPORTED_DATABASE_SCHEMA", error.message()),
            AppError::NotWritable(_) => ("NOT_WRITABLE", error.message()),
            AppError::Io(_) => ("FILE_IO", owned("无法读写项目文件，请检查路径和权限。")),
            AppError::Csv(_) => ("CSV_EXPORT", owned("无法生成 CSV 导出文件。")),
            AppError::Database(_) => ("DATABASE", owned("无法保存项目数据库，数据未被静默忽略。")),
            AppError::Metadata(_) => ("INVALID_METADATA", owned("metadata.json 内容损坏或格式不正确。")),
            AppError::Import(e) => (e.code(), e.message()),
        };
        AppErrorPayload { code, message, detail: Some(error.message()) }
    }
}

/// Builds an `InvalidInput` error with the given message.
pub fn invalid_input(message: &str) -> (e: AppError)
    ensures
        e matches AppError::InvalidInput(m) && m@ == message@,
{
    AppError::InvalidInput(crate::text::owned(message))
}

/// Builds an `InvalidProject` error with the given message.
pub fn invalid_project(message: &str) -> (e: AppError)
    ensures
        e matches AppError::InvalidProject(m) && m@ == message@,
{
    AppError::InvalidProject(crate::text::owned(message))
}

/// Builds a `ConfirmationRequired` error with the given message.
pub fn confirmation_required(message: &str) -> (e: AppError)
    ensures
        e matches AppError::ConfirmationRequired(m) && m@ == message@,
{
    AppError::ConfirmationRequired(crate::text::owned(message))
}

} // verus!
