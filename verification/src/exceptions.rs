//! The failures that the quantizers, the metrics and the vector arithmetic report.

use vstd::prelude::*;
use vstd::string::StringExecFns;

verus! {

/// The numeral of one decimal digit.
pub open spec fn digit_spec(d: int) -> Seq<char> {
    if d == 0 {
        "0"@
    } else if d == 1 {
        "1"@
    } else if d == 2 {
        "2"@
    } else if d == 3 {
        "3"@
    } else if d == 4 {
        "4"@
    } else if d == 5 {
        "5"@
    } else if d == 6 {
        "6"@
    } else if d == 7 {
        "7"@
    } else if d == 8 {
        "8"@
    } else {
        "9"@
    }
}

/// The decimal numeral of `n`, without leading zeros.
pub open spec fn decimal_spec(n: nat) -> Seq<char>
    decreases n,
{
    if n < 10 {
        digit_spec(n as int)
    } else {
        decimal_spec(n / 10) + digit_spec((n % 10) as int)
    }
}

fn digit(d: usize) -> (s: &'static str)
    requires
        d < 10,
    ensures
        s@ == digit_spec(d as int),
{
    if d == 0 {
        "0"
    } else if d == 1 {
        "1"
    } else if d == 2 {
        "2"
    } else if d == 3 {
        "3"
    } else if d == 4 {
        "4"
    } else if d == 5 {
        "5"
    } else if d == 6 {
        "6"
    } else if d == 7 {
        "7"
    } else if d == 8 {
        "8"
    } else {
        "9"
    }
}

/// The decimal numeral of `n`.
pub fn decimal(n: usize) -> (s: String)
    ensures
        s@ == decimal_spec(n as nat),
    decreases n,
{
    if n < 10 {
        digit(n).to_owned()
    } else {
        decimal(n / 10).concat(digit(n % 10))
    }
}

/// Why an operation was rejected. Every check is made before any work starts.
#[derive(Debug, Clone, PartialEq, Eq)]
pub enum VqError {
    /// Two operands, or an input and a fitted quantizer, disagree in length.
    DimensionMismatch { expected: usize, found: usize },
    /// At least one vector was needed and none was given.
    EmptyInput,
    /// A hyperparameter is malformed; the text says which.
    InvalidParameter(String),
    /// A parameter of a metric is malformed.
    InvalidMetricParameter { metric: String, details: String },
}

/// Shorthand for results of this crate.
pub type VqResult<T> = Result<T, VqError>;

impl VqError {
    /// The error is `InvalidParameter` and carries exactly `reason`.
    pub open spec fn is_invalid_parameter(self, reason: Seq<char>) -> bool {
        self matches VqError::InvalidParameter(text) && text@ == reason
    }

    /// The error is `InvalidMetricParameter` and carries exactly these texts.
    pub open spec fn is_invalid_metric_parameter(self, metric: Seq<char>, details: Seq<char>) -> bool {
        self matches VqError::InvalidMetricParameter { metric: m, details: d } && m@ == metric
            && d@ == details
    }

    /// The text that describes the error to a reader.
    pub open spec fn message_spec(self) -> Seq<char> {
        match self {
            VqError::DimensionMismatch { expected, found } => "Dimension mismatch: expected "@
                + decimal_spec(expected as nat) + ", got "@ + decimal_spec(found as nat),
            VqError::EmptyInput => "Empty input: at least one vector is required."@,
            VqError::InvalidParameter(reason) => "Invalid parameter: "@ + reason@,
            VqError::InvalidMetricParameter { metric, details } => "Invalid metric parameter for "@
                + metric@ + ": "@ + details@,
        }
    }

    /// The text that describes the error to a reader.
    pub fn message(&self) -> (text: String)
        ensures
            text@ == self.message_spec(),
    {
        match self {
            VqError::DimensionMismatch { expected, found } => {
                let wanted = decimal(*expected);
                let got = decimal(*found);
                "Dimension mismatch: expected ".to_owned().concat(wanted.as_str()).concat(
                    ", got ",
                ).concat(got.as_str())
            },
            VqError::EmptyInput => "Empty input: at least one vector is required.".to_owned(),
            VqError::InvalidParameter(reason) => "Invalid parameter: ".to_owned().concat(
                reason.as_str(),
            ),
            VqError::InvalidMetricParameter { metric, details } => {
                "Invalid metric parameter for ".to_owned().concat(metric.as_str()).concat(
                    ": ",
                ).concat(details.as_str())
            },
        }
    }

    /// Builds `InvalidParameter` from its reason.
    pub fn invalid_parameter(reason: &str) -> (e: VqError)
        ensures
            e.is_invalid_parameter(reason@),
    {
        VqError::InvalidParameter(reason.to_owned())
    }

    /// Builds `InvalidMetricParameter` from the metric's name and the complaint.
    pub fn invalid_metric_parameter(metric: &str, details: &str) -> (e: VqError)
        ensures
            e.is_invalid_metric_parameter(metric@, details@),
    {
        VqError::InvalidMetricParameter { metric: metric.to_owned(), details: details.to_owned() }
    }
}

} // verus!
