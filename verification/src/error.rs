//! Error classification for applications embedding the engine.
//!
//! The core itself has no fatal failures: absent lookups are modelled as
//! absence, and the ingestion cap is reached silently. This module gives an
//! embedding application a small taxonomy for the failures that can arise
//! around the core (storage, engine, templating, missing data).

use vstd::prelude::*;

verus! {

/// The broad class a failure falls under.
#[derive(Debug, PartialEq, Eq, Structural, Clone, Copy)]
pub enum AppErrorType {
    Db,
    Engine,
    Template,
    Notfound,
}

/// An application-level error: an optional human-readable message and a class.
#[derive(Debug)]
pub struct AppError {
    pub message: Option<String>,
    pub types: AppErrorType,
}

impl AppError {
    fn new(message: Option<String>, types: AppErrorType) -> (r: Self)
        ensures
            r.message == message,
            r.types == types,
    {
        Self { message, types }
    }

    /// A missing-data error carrying an optional message.
    pub fn notfound_opt(message: Option<String>) -> (r: Self)
        ensures
            r.message == message,
            r.types == AppErrorType::Notfound,
    {
        Self::new(message, AppErrorType::Notfound)
    }

    /// A missing-data error carrying the given message.
    pub fn notfound_msg(msg: &str) -> (r: Self)
        ensures
            r.message matches Some(m) && m@ == msg@,
            r.types == AppErrorType::Notfound,
    {
        Self::notfound_opt(Some(msg.to_owned()))
    }

    /// A missing-data error with the default message.
    pub fn notfound() -> (r: Self)
        ensures
            r.message matches Some(m) && m@ == "没有找到符合条件的数据"@,
            r.types == AppErrorType::Notfound,
    {
        Self::notfound_msg("没有找到符合条件的数据")
    }
}

} // verus!
