//! The ways a request of this library can be refused.
use vstd::prelude::*;

verus! {

/// Why a configuration could not be resolved or an entry could not be
/// written.
#[derive(Debug, Clone, Copy, PartialEq, Eq, Structural)]
pub enum DiaryError {
    /// No configuration directory is known on this system.
    ConfigDirUnknown,
    /// The `.env` file sets `RAG_BASE_PATH` to an empty value.
    RagBasePathEmpty,
    /// The `.env` file does not set `RAG_BASE_PATH`.
    RagBasePathMissing,
    /// The directory that holds the `.env` file cannot be told from its path.
    EnvDirUnknown,
    /// The date is not of the form `YYYY-MM-DD`.
    DateFormat,
    /// The time is not of the form `HH:MM`.
    TimeFormat,
    /// The hour of the time is not a number.
    HourInvalid,
    /// The minute of the time is not a number.
    MinuteInvalid,
    /// The hour or the minute is out of range.
    TimeOutOfRange,
}

/// The message shown to the user for each error.
pub open spec fn error_message(e: DiaryError) -> Seq<char> {
    match e {
        DiaryError::ConfigDirUnknown => "无法确定配置目录"@,
        DiaryError::RagBasePathEmpty => "RAG_BASE_PATH 为空"@,
        DiaryError::RagBasePathMissing => "未在 .env 中找到 RAG_BASE_PATH"@,
        DiaryError::EnvDirUnknown => "无法确定 .env 所在目录"@,
        DiaryError::DateFormat => "date 格式应为 YYYY-MM-DD"@,
        DiaryError::TimeFormat => "time 格式应为 HH:MM"@,
        DiaryError::HourInvalid => "time 小时无效"@,
        DiaryError::MinuteInvalid => "time 分钟无效"@,
        DiaryError::TimeOutOfRange => "time 超出有效范围"@,
    }
}

impl DiaryError {
    /// The message shown to the user for this error.
    pub fn message(&self) -> (r: String)
        ensures
            r@ == error_message(*self),
    {
        match self {
            DiaryError::ConfigDirUnknown => String::from_str("无法确定配置目录"),
            DiaryError::RagBasePathEmpty => String::from_str("RAG_BASE_PATH 为空"),
            DiaryError::RagBasePathMissing => String::from_str("未在 .env 中找到 RAG_BASE_PATH"),
            DiaryError::EnvDirUnknown => String::from_str("无法确定 .env 所在目录"),
            DiaryError::DateFormat => String::from_str("date 格式应为 YYYY-MM-DD"),
            DiaryError::TimeFormat => String::from_str("time 格式应为 HH:MM"),
            DiaryError::HourInvalid => String::from_str("time 小时无效"),
            DiaryError::MinuteInvalid => String::from_str("time 分钟无效"),
            DiaryError::TimeOutOfRange => String::from_str("time 超出有效范围"),
        }
    }
}

} // verus!
