//! The crate error type.
//!
//! Every fallible operation returns an [`Error`]. Its text, its stable kind and
//! caption and its severity are ordinary methods; contracts speak of an error
//! through its [`ErrorModel`].

use crate::types::NodeId;
use vstd::prelude::*;
use vstd::string::StringExecFns;

verus! {

/// Everything that can go wrong while driving a node.
///
/// The type is `#[non_exhaustive]`: variants may be added, so a `match` over it
/// must hold a wildcard arm.
#[non_exhaustive]
#[derive(Debug)]
pub enum Error {
    /// A client request was made to a node that is not the leader.
    ///
    /// `leader` carries the node's best knowledge of who the leader is, so that
    /// the caller can redirect the request; it is `None` when none is known.
    NotLeader {
        /// The node believed to be the current leader, if known.
        leader: Option<NodeId>,
    },
    /// A log backend operation failed.
    ///
    /// A storage failure on the durability path is fatal to the node: a node
    /// that cannot persist its state must not continue participating.
    Storage {
        /// What the log was trying to do when the failure occurred.
        context: &'static str,
        /// The underlying backend error, rendered as text.
        detail: String,
    },
    /// A message failed to encode to or decode from its wire form.
    ///
    /// A decode failure is not fatal: the transport drops the malformed message
    /// and carries on, exactly as Raft tolerates a lost one.
    Encoding {
        /// What the framing layer was doing when it failed.
        context: &'static str,
        /// The underlying codec error, rendered as text.
        detail: String,
    },
    /// A membership change was requested while a previous one is in flight.
    ConfigInProgress,
}

/// The mathematical content of an [`Error`].
#[verifier::ext_equal]
pub enum ErrorModel {
    NotLeader { leader: Option<NodeId> },
    Storage { context: Seq<char>, detail: Seq<char> },
    Encoding { context: Seq<char>, detail: Seq<char> },
    ConfigInProgress,
}

impl View for Error {
    type V = ErrorModel;

    open spec fn view(&self) -> ErrorModel {
        match *self {
            Error::NotLeader { leader } => ErrorModel::NotLeader { leader },
            Error::Storage { context, detail } => ErrorModel::Storage {
                context: context@,
                detail: detail@,
            },
            Error::Encoding { context, detail } => ErrorModel::Encoding {
                context: context@,
                detail: detail@,
            },
            Error::ConfigInProgress => ErrorModel::ConfigInProgress,
        }
    }
}

/// The character for the decimal digit `d`.
pub open spec fn digit_char(d: nat) -> char {
    seq!['0', '1', '2', '3', '4', '5', '6', '7', '8', '9'][d as int]
}

/// `n` in decimal notation, without leading zeros.
pub open spec fn decimal_text(n: nat) -> Seq<char>
    decreases n,
{
    if n < 10 {
        seq![digit_char(n)]
    } else {
        decimal_text(n / 10).push(digit_char(n % 10))
    }
}

/// The number that a row of decimal digits stands for.
pub open spec fn value_of(digits: Seq<char>) -> int
    decreases digits.len(),
{
    if digits.len() == 0 {
        0
    } else {
        10 * value_of(digits.drop_last()) + (digits.last() as int - '0' as int)
    }
}

/// Decimal notation: digits alone, that stand for the number, and no zero in front but
/// for zero itself.
pub proof fn law_decimal_notation_stands_for_the_number(n: nat)
    ensures
        value_of(decimal_text(n)) == n,
        decimal_text(n).len() > 0,
        decimal_text(n)[0] == '0' ==> n == 0 && decimal_text(n).len() == 1,
        forall|i: int|
            0 <= i < decimal_text(n).len() ==> '0' <= #[trigger] decimal_text(n)[i] <= '9',
    decreases n,
{
    let text = decimal_text(n);
    if n < 10 {
        assert(text.drop_last() =~= Seq::<char>::empty());
        assert(value_of(Seq::<char>::empty()) == 0);
    } else {
        let head = decimal_text(n / 10);
        law_decimal_notation_stands_for_the_number(n / 10);
        assert(text.drop_last() =~= head);
        assert(text[0] == head[0]);
    }
}

impl ErrorModel {
    /// The message shown for the error.
    pub open spec fn text(self) -> Seq<char> {
        match self {
            ErrorModel::NotLeader { leader: Some(id) } => "not the leader; current leader is node "@
                + decimal_text(id as nat),
            ErrorModel::NotLeader { leader: None } =>
                "not the leader; no leader is currently known"@,
            ErrorModel::Storage { context, detail } => "log storage error while "@ + context
                + ": "@ + detail,
            ErrorModel::Encoding { context, detail } => "message framing error while "@ + context
                + ": "@ + detail,
            ErrorModel::ConfigInProgress => "a configuration change is already in progress"@,
        }
    }
}

/// The decimal digit `d` as text.
fn digit(d: u128) -> (r: &'static str)
    requires
        d < 10,
    ensures
        r@ == seq![digit_char(d as nat)],
{
    proof {
        reveal_strlit("0");
        reveal_strlit("1");
        reveal_strlit("2");
        reveal_strlit("3");
        reveal_strlit("4");
        reveal_strlit("5");
        reveal_strlit("6");
        reveal_strlit("7");
        reveal_strlit("8");
        reveal_strlit("9");
    }
    if d == 0 {
        "0"
    } else if d == 1 {
        "1"
    } else if d == 2 {
        "2"
    } else if d == 3 {
        "3"
    } else if d == 4 {
        "4"
    } else if d == 5 {
        "5"
    } else if d == 6 {
        "6"
    } else if d == 7 {
        "7"
    } else if d == 8 {
        "8"
    } else {
        "9"
    }
}

/// Returns `n` in decimal notation.
pub fn decimal(n: u128) -> (r: String)
    ensures
        r@ == decimal_text(n as nat),
    decreases n,
{
    if n < 10 {
        String::from_str(digit(n))
    } else {
        let mut text = decimal(n / 10);
        text.append(digit(n % 10));
        text
    }
}

/// Joins the pieces of a failure message.
fn failure_text(what: &str, context: &str, detail: &str) -> (r: String)
    ensures
        r@ == what@ + context@ + ": "@ + detail@,
{
    let mut text = String::from_str(what);
    text.append(context);
    text.append(": ");
    text.append(detail);
    text
}

impl Error {
    /// Builds a [`Storage`](Error::Storage) error from the text of a backend
    /// failure.
    #[must_use]
    pub fn storage(context: &'static str, source: &str) -> (r: Self)
        ensures
            r@ == (ErrorModel::Storage { context: context@, detail: source@ }),
    {
        Error::Storage { context, detail: String::from_str(source) }
    }

    /// Builds an [`Encoding`](Error::Encoding) error from the text of a codec
    /// failure.
    #[must_use]
    pub fn encoding(context: &'static str, source: &str) -> (r: Self)
        ensures
            r@ == (ErrorModel::Encoding { context: context@, detail: source@ }),
    {
        Error::Encoding { context, detail: String::from_str(source) }
    }

    /// Returns the message shown for the error.
    #[must_use]
    pub fn to_string(&self) -> (r: String)
        ensures
            r@ == self@.text(),
    {
        match self {
            Error::NotLeader { leader: Some(id) } => {
                let mut text = String::from_str("not the leader; current leader is node ");
                let number = decimal(*id as u128);
                text.append(number.as_str());
                text
            },
            Error::NotLeader { leader: None } => {
                String::from_str("not the leader; no leader is currently known")
            },
            Error::Storage { context, detail } => {
                failure_text("log storage error while ", context, detail.as_str())
            },
            Error::Encoding { context, detail } => {
                failure_text("message framing error while ", context, detail.as_str())
            },
            Error::ConfigInProgress => {
                String::from_str("a configuration change is already in progress")
            },
        }
    }

    /// Returns the stable name of the error's variant.
    #[must_use]
    pub fn kind(&self) -> (r: &'static str)
        ensures
            r@ == (match self@ {
                ErrorModel::NotLeader { .. } => "NotLeader"@,
                ErrorModel::Storage { .. } => "Storage"@,
                ErrorModel::Encoding { .. } => "Encoding"@,
                ErrorModel::ConfigInProgress => "ConfigInProgress"@,
            }),
    {
        match self {
            Error::NotLeader { .. } => "NotLeader",
            Error::Storage { .. } => "Storage",
            Error::Encoding { .. } => "Encoding",
            Error::ConfigInProgress => "ConfigInProgress",
        }
    }

    /// Returns a short human-readable heading for the error.
    #[must_use]
    pub fn caption(&self) -> (r: &'static str)
        ensures
            r@ == (match self@ {
                ErrorModel::NotLeader { .. } => "Not the leader"@,
                ErrorModel::Storage { .. } => "Log storage failure"@,
                ErrorModel::Encoding { .. } => "Message framing failure"@,
                ErrorModel::ConfigInProgress => "Configuration change in progress"@,
            }),
    {
        match self {
            Error::NotLeader { .. } => "Not the leader",
            Error::Storage { .. } => "Log storage failure",
            Error::Encoding { .. } => "Message framing failure",
            Error::ConfigInProgress => "Configuration change in progress",
        }
    }

    /// Says whether the request may succeed when made again.
    ///
    /// A `NotLeader` rejection is retryable against the indicated leader and a
    /// `ConfigInProgress` rejection once the change completes.
    #[must_use]
    pub fn is_retryable(&self) -> (r: bool)
        ensures
            r == (self@ is NotLeader || self@ is ConfigInProgress),
    {
        match self {
            Error::NotLeader { .. } => true,
            Error::ConfigInProgress => true,
            _ => false,
        }
    }

    /// Says whether the node must stop.
    ///
    /// A storage failure means the node can no longer guarantee durability.
    #[must_use]
    pub fn is_fatal(&self) -> (r: bool)
        ensures
            r == (self@ is Storage),
    {
        match self {
            Error::Storage { .. } => true,
            _ => false,
        }
    }
}

} // verus!
