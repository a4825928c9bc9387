//! Errors of the query engine, and the context that callers add to them.
use vstd::prelude::*;

verus! {

/// An error of the query engine. Errors of the columnar data layer and of the
/// query planner are carried by their message.
#[derive(Debug, Clone, PartialEq, Eq)]
pub enum EngineError {
    PluginError(String),
    PluginNotFound(String),
    PluginRegistrationFailed(String),
    QueryError(String),
    InternalError(String),
    CallError(String),
    UnsupportedCall,
    ArrowError(String),
    DataFusionError(String),
    ClusterError(String),
    ConcurrencyError(String),
    ConfigError(String),
    UnsupportedOption(String),
    InvalidOptionValue(String, String),
    ReadOnlyOption(String),
    EngineNotInitialized,
}

/// The shape of an engine error, with texts in place of strings.
pub enum EngineErrorView {
    PluginError(Seq<char>),
    PluginNotFound(Seq<char>),
    PluginRegistrationFailed(Seq<char>),
    QueryError(Seq<char>),
    InternalError(Seq<char>),
    CallError(Seq<char>),
    UnsupportedCall,
    ArrowError(Seq<char>),
    DataFusionError(Seq<char>),
    ClusterError(Seq<char>),
    ConcurrencyError(Seq<char>),
    ConfigError(Seq<char>),
    UnsupportedOption(Seq<char>),
    InvalidOptionValue(Seq<char>, Seq<char>),
    ReadOnlyOption(Seq<char>),
    EngineNotInitialized,
}

impl View for EngineError {
    type V = EngineErrorView;

    open spec fn view(&self) -> EngineErrorView {
        match self {
            EngineError::PluginError(m) => EngineErrorView::PluginError(m@),
            EngineError::PluginNotFound(m) => EngineErrorView::PluginNotFound(m@),
            EngineError::PluginRegistrationFailed(m) => EngineErrorView::PluginRegistrationFailed(m@),
            EngineError::QueryError(m) => EngineErrorView::QueryError(m@),
            EngineError::InternalError(m) => EngineErrorView::InternalError(m@),
            EngineError::CallError(m) => EngineErrorView::CallError(m@),
            EngineError::UnsupportedCall => EngineErrorView::UnsupportedCall,
            EngineError::ArrowError(m) => EngineErrorView::ArrowError(m@),
            EngineError::DataFusionError(m) => EngineErrorView::DataFusionError(m@),
            EngineError::ClusterError(m) => EngineErrorView::ClusterError(m@),
            EngineError::ConcurrencyError(m) => EngineErrorView::ConcurrencyError(m@),
            EngineError::ConfigError(m) => EngineErrorView::ConfigError(m@),
            EngineError::UnsupportedOption(m) => EngineErrorView::UnsupportedOption(m@),
            EngineError::InvalidOptionValue(k, v) => EngineErrorView::InvalidOptionValue(k@, v@),
            EngineError::ReadOnlyOption(m) => EngineErrorView::ReadOnlyOption(m@),
            EngineError::EngineNotInitialized => EngineErrorView::EngineNotInitialized,
        }
    }
}

/// `context: msg`.
pub open spec fn prefixed(context: Seq<char>, msg: Seq<char>) -> Seq<char> {
    context + ": "@ + msg
}

/// The error with `context` put before its message. Errors with no message of
/// their own, errors of the data layer and of the planner, and invalid option
/// values stay as they are.
pub open spec fn with_context_spec(e: EngineErrorView, c: Seq<char>) -> EngineErrorView {
    match e {
        EngineErrorView::PluginError(m) => EngineErrorView::PluginError(prefixed(c, m)),
        EngineErrorView::PluginNotFound(m) => EngineErrorView::PluginNotFound(prefixed(c, m)),
        EngineErrorView::PluginRegistrationFailed(m) => EngineErrorView::PluginRegistrationFailed(prefixed(c, m)),
        EngineErrorView::QueryError(m) => EngineErrorView::QueryError(prefixed(c, m)),
        EngineErrorView::InternalError(m) => EngineErrorView::InternalError(prefixed(c, m)),
        EngineErrorView::CallError(m) => EngineErrorView::CallError(prefixed(c, m)),
        EngineErrorView::ClusterError(m) => EngineErrorView::ClusterError(prefixed(c, m)),
        EngineErrorView::ConcurrencyError(m) => EngineErrorView::ConcurrencyError(prefixed(c, m)),
        EngineErrorView::ConfigError(m) => EngineErrorView::ConfigError(prefixed(c, m)),
        EngineErrorView::UnsupportedOption(m) => EngineErrorView::UnsupportedOption(prefixed(c, m)),
        EngineErrorView::ReadOnlyOption(m) => EngineErrorView::ReadOnlyOption(prefixed(c, m)),
        other => other,
    }
}

/// The message an engine error is shown with.
pub open spec fn message_spec(e: EngineErrorView) -> Seq<char> {
    match e {
        EngineErrorView::PluginError(m) => "Plugin error: "@ + m,
        EngineErrorView::PluginNotFound(m) => "Plugin not found: "@ + m,
        EngineErrorView::PluginRegistrationFailed(m) => "Plugin registration failed: "@ + m,
        EngineErrorView::QueryError(m) => "Query execution error: "@ + m,
        EngineErrorView::InternalError(m) => "Internal engine error: "@ + m,
        EngineErrorView::CallError(m) => "API call error: "@ + m,
        EngineErrorView::UnsupportedCall => "Unsupported API call"@,
        EngineErrorView::ArrowError(m) => "Arrow data error: "@ + m,
        EngineErrorView::DataFusionError(m) => "DataFusion error: "@ + m,
        EngineErrorView::ClusterError(m) => "Cluster error: "@ + m,
        EngineErrorView::ConcurrencyError(m) => "Concurrency error: "@ + m,
        EngineErrorView::ConfigError(m) => "Configuration error: "@ + m,
        EngineErrorView::UnsupportedOption(m) => "Unsupported option: "@ + m,
        EngineErrorView::InvalidOptionValue(k, v) => "Invalid option value: "@ + k + "="@ + v,
        EngineErrorView::ReadOnlyOption(m) => "Read-only option: "@ + m,
        EngineErrorView::EngineNotInitialized => "Engine not initialized"@,
    }
}

fn prefix_message(context: &str, msg: &String) -> (r: String)
    ensures
        r@ == prefixed(context@, msg@),
{
    let mut r = String::from_str(context);
    r.append(": ");
    r.append(msg.as_str());
    r
}

fn labelled(label: &str, msg: &String) -> (r: String)
    ensures
        r@ == label@ + msg@,
{
    let mut r = String::from_str(label);
    r.append(msg.as_str());
    r
}

impl EngineError {
    /// The error with `context` put before its message, as `context: message`.
    pub fn with_context(self, context: &str) -> (r: EngineError)
        ensures
            r@ == with_context_spec(self@, context@),
    {
        match self {
            EngineError::PluginError(m) => EngineError::PluginError(prefix_message(context, &m)),
            EngineError::PluginNotFound(m) => EngineError::PluginNotFound(prefix_message(context, &m)),
            EngineError::PluginRegistrationFailed(m) => EngineError::PluginRegistrationFailed(
                prefix_message(context, &m),
            ),
            EngineError::QueryError(m) => EngineError::QueryError(prefix_message(context, &m)),
            EngineError::InternalError(m) => EngineError::InternalError(prefix_message(context, &m)),
            EngineError::CallError(m) => EngineError::CallError(prefix_message(context, &m)),
            EngineError::ClusterError(m) => EngineError::ClusterError(prefix_message(context, &m)),
            EngineError::ConcurrencyError(m) => EngineError::ConcurrencyError(prefix_message(context, &m)),
            EngineError::ConfigError(m) => EngineError::ConfigError(prefix_message(context, &m)),
            EngineError::UnsupportedOption(m) => EngineError::UnsupportedOption(prefix_message(context, &m)),
            EngineError::ReadOnlyOption(m) => EngineError::ReadOnlyOption(prefix_message(context, &m)),
            other => other,
        }
    }

    /// The message the error is shown with.
    pub fn message(&self) -> (r: String)
        ensures
            r@ == message_spec(self@),
    {
        match self {
            EngineError::PluginError(m) => labelled("Plugin error: ", m),
            EngineError::PluginNotFound(m) => labelled("Plugin not found: ", m),
            EngineError::PluginRegistrationFailed(m) => labelled("Plugin registration failed: ", m),
            EngineError::QueryError(m) => labelled("Query execution error: ", m),
            EngineError::InternalError(m) => labelled("Internal engine error: ", m),
            EngineError::CallError(m) => labelled("API call error: ", m),
            EngineError::UnsupportedCall => String::from_str("Unsupported API call"),
            EngineError::ArrowError(m) => labelled("Arrow data error: ", m),
            EngineError::DataFusionError(m) => labelled("DataFusion error: ", m),
            EngineError::ClusterError(m) => labelled("Cluster error: ", m),
            EngineError::ConcurrencyError(m) => labelled("Concurrency error: ", m),
            EngineError::ConfigError(m) => labelled("Configuration error: ", m),
            EngineError::UnsupportedOption(m) => labelled("Unsupported option: ", m),
            EngineError::InvalidOptionValue(k, v) => {
                let mut r = labelled("Invalid option value: ", k);
                r.append("=");
                r.append(v.as_str());
                r
            },
            EngineError::ReadOnlyOption(m) => labelled("Read-only option: ", m),
            EngineError::EngineNotInitialized => String::from_str("Engine not initialized"),
        }
    }

    /// An internal error with the given message, as a plain message becomes.
    pub fn from_message(message: &str) -> (r: EngineError)
        ensures
            r@ == EngineErrorView::InternalError(message@),
    {
        EngineError::InternalError(String::from_str(message))
    }

    /// The error a poisoned lock becomes: `Lock poisoned: ` and what the lock reported.
    pub fn lock_poisoned(detail: &str) -> (r: EngineError)
        ensures
            r@ == EngineErrorView::ConcurrencyError("Lock poisoned: "@ + detail@),
    {
        let mut m = String::from_str("Lock poisoned: ");
        m.append(detail);
        EngineError::ConcurrencyError(m)
    }
}

/// A result whose error can be given context.
pub trait ResultExt<T>: Sized {
    /// The result, with `context` put before the message of its error.
    fn context(self, context: &str) -> Result<T, EngineError>;
}

impl<T> ResultExt<T> for Result<T, EngineError> {
    fn context(self, context: &str) -> (r: Result<T, EngineError>)
        ensures
            match (self, r) {
                (Ok(a), Ok(b)) => a == b,
                (Err(e), Err(f)) => f@ == with_context_spec(e@, context@),
                _ => false,
            },
    {
        match self {
            Ok(v) => Ok(v),
            Err(e) => Err(e.with_context(context)),
        }
    }
}

/// `Ok` where `condition` holds, else an internal error with `message`.
pub fn ensure(condition: bool, message: &str) -> (r: Result<(), EngineError>)
    ensures
        condition ==> r is Ok,
        !condition ==> (r matches Err(e) && e@ == EngineErrorView::InternalError(message@)),
{
    if condition {
        Ok(())
    } else {
        Err(EngineError::InternalError(String::from_str(message)))
    }
}

/// An internal error with `message`.
pub fn bail<T>(message: &str) -> (r: Result<T, EngineError>)
    ensures
        r matches Err(e) && e@ == EngineErrorView::InternalError(message@),
{
    Err(EngineError::InternalError(String::from_str(message)))
}

} // verus!
