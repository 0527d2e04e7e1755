//! Errors, and the text that reports them.
use vstd::prelude::*;
use vstd::string::StringExecFns;

verus! {

/// A failure of the clustering algorithm itself.
#[derive(Clone, Debug)]
pub enum KMeansError {
    /// It rejected what it was asked to do.
    InvalidArgument(String),
    /// It failed while running.
    Runtime(String),
}

/// Why training or assignment failed.
#[derive(Clone, Debug)]
pub enum ClusterError {
    /// The vectors do not have the field's dimensionality.
    VectorDims { expected: usize, got: usize },
    /// There is not one document id per vector.
    DocIdCount { expected: usize, got: usize },
    /// The vectors do not have as many values as their shape says.
    VectorValueCount { expected: usize, got: usize },
    /// There is no centroid to assign to.
    NoCentroids,
    /// The centroids do not have the field's dimensionality.
    CentroidDims { expected: usize, got: usize },
    /// The centroids do not have as many values as their shape says.
    CentroidValueCount { expected: usize, got: usize },
    /// Training gave another number of values than the centroids have.
    TrainedValueCount { expected: usize, got: usize },
    /// The clustering algorithm failed.
    Clustering(KMeansError),
}

/// Whom an error blames.
#[derive(Clone, Copy, Debug, PartialEq, Eq, Structural)]
pub enum ErrorKind {
    /// The caller: an argument is not acceptable.
    InvalidArgument,
    /// The implementation.
    Internal,
}

/// The character of a decimal digit.
pub open spec fn digit_char(digit: int) -> char {
    ('0' as int + digit) as char
}

/// A number in decimal, without leading zeros.
pub open spec fn decimal(n: nat) -> Seq<char>
    decreases n,
{
    if n < 10 {
        seq![digit_char(n as int)]
    } else {
        decimal(n / 10).push(digit_char((n % 10) as int))
    }
}

fn append_digit(text: &mut String, digit: usize)
    requires
        digit < 10,
    ensures
        final(text)@ == old(text)@.push(digit_char(digit as int)),
{
    proof {
        reveal_strlit("0");
        reveal_strlit("1");
        reveal_strlit("2");
        reveal_strlit("3");
        reveal_strlit("4");
        reveal_strlit("5");
        reveal_strlit("6");
        reveal_strlit("7");
        reveal_strlit("8");
        reveal_strlit("9");
    }
    let ghost before = text@;
    let digits: &str = if digit == 0 {
        "0"
    } else if digit == 1 {
        "1"
    } else if digit == 2 {
        "2"
    } else if digit == 3 {
        "3"
    } else if digit == 4 {
        "4"
    } else if digit == 5 {
        "5"
    } else if digit == 6 {
        "6"
    } else if digit == 7 {
        "7"
    } else if digit == 8 {
        "8"
    } else {
        "9"
    };
    text.append(digits);
    assert(text@ =~= before.push(digit_char(digit as int)));
}

fn append_decimal(text: &mut String, n: usize)
    ensures
        final(text)@ == old(text)@ + decimal(n as nat),
    decreases n,
{
    let ghost before = text@;
    if n >= 10 {
        append_decimal(text, n / 10);
    }
    append_digit(text, n % 10);
    assert(text@ =~= before + decimal(n as nat));
}

/// What a mismatch reads: what does not match, what was expected and what came.
pub open spec fn mismatch_text(subject: Seq<char>, expected: nat, got: nat) -> Seq<char> {
    subject + " mismatch: expected "@ + decimal(expected) + ", got "@ + decimal(got)
}

fn mismatch(subject: &str, expected: usize, got: usize) -> (text: String)
    ensures
        text@ == mismatch_text(subject@, expected as nat, got as nat),
{
    let mut text = String::from_str(subject);
    text.append(" mismatch: expected ");
    append_decimal(&mut text, expected);
    text.append(", got ");
    append_decimal(&mut text, got);
    text
}

impl ClusterError {
    /// Whom the error blames.
    pub open spec fn kind_of(&self) -> ErrorKind {
        match self {
            ClusterError::TrainedValueCount { .. } => ErrorKind::Internal,
            ClusterError::Clustering(KMeansError::Runtime(_)) => ErrorKind::Internal,
            _ => ErrorKind::InvalidArgument,
        }
    }

    /// What the error says.
    pub open spec fn text(&self) -> Seq<char> {
        match self {
            ClusterError::VectorDims { expected, got } => mismatch_text(
                "vector dimensionality"@,
                *expected as nat,
                *got as nat,
            ),
            ClusterError::DocIdCount { expected, got } => mismatch_text(
                "vector doc_id count"@,
                *expected as nat,
                *got as nat,
            ),
            ClusterError::VectorValueCount { expected, got } => mismatch_text(
                "vector value count"@,
                *expected as nat,
                *got as nat,
            ),
            ClusterError::NoCentroids => "cannot assign with zero centroids"@,
            ClusterError::CentroidDims { expected, got } => mismatch_text(
                "centroid dimensionality"@,
                *expected as nat,
                *got as nat,
            ),
            ClusterError::CentroidValueCount { expected, got } => mismatch_text(
                "centroid value count"@,
                *expected as nat,
                *got as nat,
            ),
            ClusterError::TrainedValueCount { expected, got } => "SuperKMeans returned "@ + decimal(
                *got as nat,
            ) + " centroid floats, expected "@ + decimal(*expected as nat),
            ClusterError::Clustering(KMeansError::InvalidArgument(message)) => message@,
            ClusterError::Clustering(KMeansError::Runtime(message)) => message@,
        }
    }

    /// Whom the error blames.
    pub fn kind(&self) -> (kind: ErrorKind)
        ensures
            kind == self.kind_of(),
    {
        match self {
            ClusterError::TrainedValueCount { .. } => ErrorKind::Internal,
            ClusterError::Clustering(KMeansError::Runtime(_)) => ErrorKind::Internal,
            _ => ErrorKind::InvalidArgument,
        }
    }

    /// What the error says.
    pub fn message(&self) -> (message: String)
        ensures
            message@ == self.text(),
    {
        match self {
            ClusterError::VectorDims { expected, got } => mismatch(
                "vector dimensionality",
                *expected,
                *got,
            ),
            ClusterError::DocIdCount { expected, got } => mismatch(
                "vector doc_id count",
                *expected,
                *got,
            ),
            ClusterError::VectorValueCount { expected, got } => mismatch(
                "vector value count",
                *expected,
                *got,
            ),
            ClusterError::NoCentroids => String::from_str("cannot assign with zero centroids"),
            ClusterError::CentroidDims { expected, got } => mismatch(
                "centroid dimensionality",
                *expected,
                *got,
            ),
            ClusterError::CentroidValueCount { expected, got } => mismatch(
                "centroid value count",
                *expected,
                *got,
            ),
            ClusterError::TrainedValueCount { expected, got } => {
                let mut text = String::from_str("SuperKMeans returned ");
                append_decimal(&mut text, *got);
                text.append(" centroid floats, expected ");
                append_decimal(&mut text, *expected);
                text
            },
            ClusterError::Clustering(KMeansError::InvalidArgument(message)) => message.clone(),
            ClusterError::Clustering(KMeansError::Runtime(message)) => message.clone(),
        }
    }
}

/// The number that decimal digits stand for.
pub open spec fn number_of(digits: Seq<char>) -> int
    decreases digits.len(),
{
    if digits.len() == 0 {
        0
    } else {
        10 * number_of(digits.drop_last()) + (digits.last() as int - '0' as int)
    }
}

/// A number in decimal reads as that number, and is written with digits only,
/// without a zero in front unless it is zero itself.
pub proof fn law_decimal_reads_back(n: nat)
    ensures
        number_of(decimal(n)) == n,
        decimal(n).len() >= 1,
        forall|i: int|
            0 <= i < decimal(n).len() ==> '0' as int <= (#[trigger] decimal(n)[i]) as int
                <= '9' as int,
        decimal(n)[0] == '0' ==> n == 0,
    decreases n,
{
    if n < 10 {
        let s = decimal(n);
        assert(s.drop_last() =~= Seq::<char>::empty());
        assert(number_of(Seq::<char>::empty()) == 0);
        assert(s.last() as int == '0' as int + n);
    } else {
        law_decimal_reads_back(n / 10);
        let front = decimal(n / 10);
        let digit = digit_char((n % 10) as int);
        assert(digit as int == '0' as int + n % 10);
        assert(decimal(n) == front.push(digit));
        assert(front.push(digit).drop_last() =~= front);
        assert(front.push(digit)[0] == front[0]);
    }
}

/// What errors say, and whom they blame. A mismatch tells what was expected and then
/// what came; where training gave a wrong number of values, it is the other way
/// round. A failure of the algorithm is told in its own words. Blame falls on the
/// caller, but for a wrong number of trained values and for failures while running.
pub proof fn law_errors(expected: usize, got: usize, message: String)
    ensures
        ({
            let e = decimal(expected as nat);
            let g = decimal(got as nat);
            let vector_dims = ClusterError::VectorDims { expected, got };
            let doc_ids = ClusterError::DocIdCount { expected, got };
            let vector_values = ClusterError::VectorValueCount { expected, got };
            let centroid_dims = ClusterError::CentroidDims { expected, got };
            let centroid_values = ClusterError::CentroidValueCount { expected, got };
            let trained = ClusterError::TrainedValueCount { expected, got };
            let refused = ClusterError::Clustering(KMeansError::InvalidArgument(message));
            let failed = ClusterError::Clustering(KMeansError::Runtime(message));
            &&& vector_dims.text() == "vector dimensionality mismatch: expected "@ + e + ", got "@ + g
            &&& doc_ids.text() == "vector doc_id count mismatch: expected "@ + e + ", got "@ + g
            &&& vector_values.text() == "vector value count mismatch: expected "@ + e + ", got "@ + g
            &&& centroid_dims.text() == "centroid dimensionality mismatch: expected "@ + e
                + ", got "@ + g
            &&& centroid_values.text() == "centroid value count mismatch: expected "@ + e
                + ", got "@ + g
            &&& trained.text() == "SuperKMeans returned "@ + g + " centroid floats, expected "@ + e
            &&& refused.text() == message@
            &&& failed.text() == message@
            &&& vector_dims.kind_of() is InvalidArgument
            &&& doc_ids.kind_of() is InvalidArgument
            &&& vector_values.kind_of() is InvalidArgument
            &&& centroid_dims.kind_of() is InvalidArgument
            &&& centroid_values.kind_of() is InvalidArgument
            &&& refused.kind_of() is InvalidArgument
            &&& trained.kind_of() is Internal
            &&& failed.kind_of() is Internal
        }),
        ClusterError::NoCentroids.text() == "cannot assign with zero centroids"@,
        ClusterError::NoCentroids.kind_of() is InvalidArgument,
{
    reveal_strlit(" mismatch: expected ");
    reveal_strlit("vector dimensionality");
    reveal_strlit("vector doc_id count");
    reveal_strlit("vector value count");
    reveal_strlit("centroid dimensionality");
    reveal_strlit("centroid value count");
    reveal_strlit("vector dimensionality mismatch: expected ");
    reveal_strlit("vector doc_id count mismatch: expected ");
    reveal_strlit("vector value count mismatch: expected ");
    reveal_strlit("centroid dimensionality mismatch: expected ");
    reveal_strlit("centroid value count mismatch: expected ");
    let e = decimal(expected as nat);
    let g = decimal(got as nat);
    assert("vector dimensionality"@ + " mismatch: expected "@
        =~= "vector dimensionality mismatch: expected "@);
    assert("vector doc_id count"@ + " mismatch: expected "@
        =~= "vector doc_id count mismatch: expected "@);
    assert("vector value count"@ + " mismatch: expected "@
        =~= "vector value count mismatch: expected "@);
    assert("centroid dimensionality"@ + " mismatch: expected "@
        =~= "centroid dimensionality mismatch: expected "@);
    assert("centroid value count"@ + " mismatch: expected "@
        =~= "centroid value count mismatch: expected "@);
}

} // verus!
