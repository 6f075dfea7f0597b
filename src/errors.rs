//! The error type of the store and a builder for detailed messages.
use vstd::prelude::*;
use vstd::string::StringExecFns;

verus! {

#[verifier::external_type_specification]
#[verifier::external_body]
pub struct ExIoError(std::io::Error);

/// Everything an operation of the store can fail with.
pub enum AntlerError {
    /// I/O operation failed.
    Io { context: String, source: std::io::Error },
    /// A write beneath a path that holds a scalar.
    TreeStructureViolation { path: String, parent: String, reason: String },
    /// The write-ahead log does not read back.
    WalCorruption { position: u64, expected: String, found: String },
    /// A segment file does not read back.
    SegmentCorruption { path: String, offset: u64, reason: String },
    /// Merging segments failed.
    CompactionFailed { level: usize, segment_count: usize, reason: String },
    /// The block cache cannot make room.
    CacheOverflow { current_size: usize, max_size: usize },
    /// A path that is empty or malformed.
    InvalidPath { path: String, reason: String },
    /// A query pattern that is malformed.
    InvalidPattern { pattern: String, reason: String },
    /// A transaction gave up.
    TransactionAborted { reason: String, operations_rolled_back: usize },
    /// A record changed under a caller that expected another sequence number.
    ConcurrentModification { key: String, expected_seq: u64, actual_seq: u64 },
    /// Some resource ran out.
    ResourceExhausted { resource: String, limit: String },
    /// An operation took too long.
    Timeout { operation: String, duration_ms: u64 },
}

/// Relies on `std::io::Error`'s `Display`: the operating system's text for the error.
#[verifier::external_body]
fn io_error_text(e: &std::io::Error) -> String {
    e.to_string()
}

/// The decimal digits of `n`.
pub open spec fn decimal(n: nat) -> Seq<char>
    decreases n,
{
    if n < 10 {
        seq![digit_char(n)]
    } else {
        decimal(n / 10) + seq![digit_char(n % 10)]
    }
}

pub open spec fn digit_char(d: nat) -> char {
    if d == 0 { '0' }
    else if d == 1 { '1' }
    else if d == 2 { '2' }
    else if d == 3 { '3' }
    else if d == 4 { '4' }
    else if d == 5 { '5' }
    else if d == 6 { '6' }
    else if d == 7 { '7' }
    else if d == 8 { '8' }
    else { '9' }
}

fn digit_str(d: u64) -> (r: &'static str)
    requires
        d < 10,
    ensures
        r@ == seq![digit_char(d as nat)],
{
    proof {
        reveal_strlit("0");
        reveal_strlit("1");
        reveal_strlit("2");
        reveal_strlit("3");
        reveal_strlit("4");
        reveal_strlit("5");
        reveal_strlit("6");
        reveal_strlit("7");
        reveal_strlit("8");
        reveal_strlit("9");
    }
    if d == 0 { "0" }
    else if d == 1 { "1" }
    else if d == 2 { "2" }
    else if d == 3 { "3" }
    else if d == 4 { "4" }
    else if d == 5 { "5" }
    else if d == 6 { "6" }
    else if d == 7 { "7" }
    else if d == 8 { "8" }
    else { "9" }
}

/// `n` written in decimal.
pub fn decimal_string(n: u64) -> (r: String)
    ensures
        r@ == decimal(n as nat),
    decreases n,
{
    if n < 10 {
        String::from_str(digit_str(n))
    } else {
        let head = decimal_string(n / 10);
        head.concat(digit_str(n % 10))
    }
}

fn cat(a: String, b: &str) -> (r: String)
    ensures
        r@ == a@ + b@,
{
    a.concat(b)
}

impl AntlerError {
    /// The human-readable message of the error.
    pub fn describe(&self) -> (r: String)
        ensures
            match self {
                AntlerError::Io { context, source } => r@.len() >= ("I/O error during "@ + context@ + ": "@).len() && r@.subrange(0, ("I/O error during "@ + context@ + ": "@).len() as int) == "I/O error during "@ + context@ + ": "@,
                AntlerError::TreeStructureViolation { path, parent, reason } => r@ == "Cannot write '"@ + path@ + "': parent '"@ + parent@ + "' is a scalar value. "@ + reason@,
                AntlerError::WalCorruption { position, expected, found } => r@ == "WAL corruption at position "@ + decimal(*position as nat) + ": expected "@ + expected@ + ", found "@ + found@,
                AntlerError::SegmentCorruption { path, offset, reason } => r@ == "Segment '"@ + path@ + "' corrupted at offset "@ + decimal(*offset as nat) + ": "@ + reason@,
                AntlerError::CompactionFailed { level, segment_count, reason } => r@ == "Compaction failed for L"@ + decimal(*level as nat) + " ("@ + decimal(*segment_count as nat) + " segments): "@ + reason@,
                AntlerError::CacheOverflow { current_size, max_size } => r@ == "Cache overflow: "@ + decimal(*current_size as nat) + " bytes exceeds limit of "@ + decimal(*max_size as nat) + " bytes"@,
                AntlerError::InvalidPath { path, reason } => r@ == "Invalid path '"@ + path@ + "': "@ + reason@,
                AntlerError::InvalidPattern { pattern, reason } => r@ == "Invalid pattern '"@ + pattern@ + "': "@ + reason@,
                AntlerError::TransactionAborted { reason, operations_rolled_back } => r@ == "Transaction aborted: "@ + reason@ + " ("@ + decimal(*operations_rolled_back as nat) + " operations rolled back)"@,
                AntlerError::ConcurrentModification { key, expected_seq, actual_seq } => r@ == "Concurrent modification of '"@ + key@ + "': expected seq "@ + decimal(*expected_seq as nat) + ", found seq "@ + decimal(*actual_seq as nat),
                AntlerError::ResourceExhausted { resource, limit } => r@ == "Resource exhausted: "@ + resource@ + " (limit: "@ + limit@ + ")"@,
                AntlerError::Timeout { operation, duration_ms } => r@ == "Operation '"@ + operation@ + "' timed out after "@ + decimal(*duration_ms as nat) + "ms"@,
            },
    {
        match self {
            AntlerError::Io { context, source } => {
                let s = cat(String::from_str("I/O error during "), context.as_str());
                let s = cat(s, ": ");
                cat(s, io_error_text(source).as_str())
            },
            AntlerError::TreeStructureViolation { path, parent, reason } => {
                let s = cat(String::from_str("Cannot write '"), path.as_str());
                let s = cat(s, "': parent '");
                let s = cat(s, parent.as_str());
                let s = cat(s, "' is a scalar value. ");
                cat(s, reason.as_str())
            },
            AntlerError::WalCorruption { position, expected, found } => {
                let s = cat(String::from_str("WAL corruption at position "), decimal_string(*position).as_str());
                let s = cat(s, ": expected ");
                let s = cat(s, expected.as_str());
                let s = cat(s, ", found ");
                cat(s, found.as_str())
            },
            AntlerError::SegmentCorruption { path, offset, reason } => {
                let s = cat(String::from_str("Segment '"), path.as_str());
                let s = cat(s, "' corrupted at offset ");
                let s = cat(s, decimal_string(*offset).as_str());
                let s = cat(s, ": ");
                cat(s, reason.as_str())
            },
            AntlerError::CompactionFailed { level, segment_count, reason } => {
                let s = cat(String::from_str("Compaction failed for L"), decimal_string(*level as u64).as_str());
                let s = cat(s, " (");
                let s = cat(s, decimal_string(*segment_count as u64).as_str());
                let s = cat(s, " segments): ");
                cat(s, reason.as_str())
            },
            AntlerError::CacheOverflow { current_size, max_size } => {
                let s = cat(String::from_str("Cache overflow: "), decimal_string(*current_size as u64).as_str());
                let s = cat(s, " bytes exceeds limit of ");
                let s = cat(s, decimal_string(*max_size as u64).as_str());
                cat(s, " bytes")
            },
            AntlerError::InvalidPath { path, reason } => {
                let s = cat(String::from_str("Invalid path '"), path.as_str());
                let s = cat(s, "': ");
                cat(s, reason.as_str())
            },
            AntlerError::InvalidPattern { pattern, reason } => {
                let s = cat(String::from_str("Invalid pattern '"), pattern.as_str());
                let s = cat(s, "': ");
                cat(s, reason.as_str())
            },
            AntlerError::TransactionAborted { reason, operations_rolled_back } => {
                let s = cat(String::from_str("Transaction aborted: "), reason.as_str());
                let s = cat(s, " (");
                let s = cat(s, decimal_string(*operations_rolled_back as u64).as_str());
                cat(s, " operations rolled back)")
            },
            AntlerError::ConcurrentModification { key, expected_seq, actual_seq } => {
                let s = cat(String::from_str("Concurrent modification of '"), key.as_str());
                let s = cat(s, "': expected seq ");
                let s = cat(s, decimal_string(*expected_seq).as_str());
                let s = cat(s, ", found seq ");
                cat(s, decimal_string(*actual_seq).as_str())
            },
            AntlerError::ResourceExhausted { resource, limit } => {
                let s = cat(String::from_str("Resource exhausted: "), resource.as_str());
                let s = cat(s, " (limit: ");
                let s = cat(s, limit.as_str());
                cat(s, ")")
            },
            AntlerError::Timeout { operation, duration_ms } => {
                let s = cat(String::from_str("Operation '"), operation.as_str());
                let s = cat(s, "' timed out after ");
                let s = cat(s, decimal_string(*duration_ms).as_str());
                cat(s, "ms")
            },
        }
    }

    /// Whether this is an I/O failure.
    pub fn is_io(&self) -> (r: bool)
        ensures
            r == (self is Io),
    {
        match self {
            AntlerError::Io { .. } => true,
            _ => false,
        }
    }
}

/// Adds a description of what was being done to an I/O failure.
pub trait IoContext<T> {
    fn io_context(self, context: &str) -> Result<T, AntlerError>;
}

impl<T> IoContext<T> for Result<T, std::io::Error> {
    fn io_context(self, context: &str) -> (r: Result<T, AntlerError>)
        ensures
            match self {
                Ok(v) => r == Ok::<T, AntlerError>(v),
                Err(e) => r matches Err(AntlerError::Io { context: c, source: x }) && c@ == context@ && x == e,
            },
    {
        match self {
            Ok(v) => Ok(v),
            Err(e) => Err(AntlerError::Io { context: String::from_str(context), source: e }),
        }
    }
}

/// Builds an error field by field.
pub struct ErrorBuilder {
    pub error: AntlerError,
}

impl ErrorBuilder {
    /// Starts a tree-structure violation for `path`, with empty parent and reason.
    pub fn tree_violation(path: &str) -> (r: ErrorBuilder)
        ensures
            match r.error {
                AntlerError::TreeStructureViolation { path: p, parent, reason } => p@ == path@
                    && parent@.len() == 0 && reason@.len() == 0,
                _ => false,
            },
    {
        ErrorBuilder {
            error: AntlerError::TreeStructureViolation {
                path: String::from_str(path),
                parent: String::new(),
                reason: String::new(),
            },
        }
    }

    /// Sets the parent of a tree-structure violation; other errors are kept as they are.
    pub fn parent(self, parent: &str) -> (r: ErrorBuilder)
        ensures
            match (self.error, r.error) {
                (
                    AntlerError::TreeStructureViolation { path: p0, parent: _, reason: r0 },
                    AntlerError::TreeStructureViolation { path: p1, parent: q1, reason: r1 },
                ) => p1@ == p0@ && q1@ == parent@ && r1@ == r0@,
                (AntlerError::TreeStructureViolation { .. }, _) => false,
                _ => r.error == self.error,
            },
    {
        match self.error {
            AntlerError::TreeStructureViolation { path, parent: _, reason } => ErrorBuilder {
                error: AntlerError::TreeStructureViolation {
                    path,
                    parent: String::from_str(parent),
                    reason,
                },
            },
            other => ErrorBuilder { error: other },
        }
    }

    /// Sets the reason of an error that carries one; other errors are kept as they are.
    pub fn reason(self, reason: &str) -> (r: ErrorBuilder)
        ensures
            match (self.error, r.error) {
                (
                    AntlerError::TreeStructureViolation { path: p0, parent: q0, reason: _ },
                    AntlerError::TreeStructureViolation { path: p1, parent: q1, reason: r1 },
                ) => p1 == p0 && q1 == q0 && r1@ == reason@,
                (
                    AntlerError::SegmentCorruption { path: p0, offset: o0, reason: _ },
                    AntlerError::SegmentCorruption { path: p1, offset: o1, reason: r1 },
                ) => p1 == p0 && o1 == o0 && r1@ == reason@,
                (
                    AntlerError::CompactionFailed { level: l0, segment_count: c0, reason: _ },
                    AntlerError::CompactionFailed { level: l1, segment_count: c1, reason: r1 },
                ) => l1 == l0 && c1 == c0 && r1@ == reason@,
                (
                    AntlerError::InvalidPath { path: p0, reason: _ },
                    AntlerError::InvalidPath { path: p1, reason: r1 },
                ) => p1 == p0 && r1@ == reason@,
                (
                    AntlerError::InvalidPattern { pattern: p0, reason: _ },
                    AntlerError::InvalidPattern { pattern: p1, reason: r1 },
                ) => p1 == p0 && r1@ == reason@,
                (AntlerError::TreeStructureViolation { .. }, _) => false,
                (AntlerError::SegmentCorruption { .. }, _) => false,
                (AntlerError::CompactionFailed { .. }, _) => false,
                (AntlerError::InvalidPath { .. }, _) => false,
                (AntlerError::InvalidPattern { .. }, _) => false,
                _ => r.error == self.error,
            },
    {
        let text = String::from_str(reason);
        match self.error {
            AntlerError::TreeStructureViolation { path, parent, reason: _ } => ErrorBuilder {
                error: AntlerError::TreeStructureViolation { path, parent, reason: text },
            },
            AntlerError::SegmentCorruption { path, offset, reason: _ } => ErrorBuilder {
                error: AntlerError::SegmentCorruption { path, offset, reason: text },
            },
            AntlerError::CompactionFailed { level, segment_count, reason: _ } => ErrorBuilder {
                error: AntlerError::CompactionFailed { level, segment_count, reason: text },
            },
            AntlerError::InvalidPath { path, reason: _ } => ErrorBuilder {
                error: AntlerError::InvalidPath { path, reason: text },
            },
            AntlerError::InvalidPattern { pattern, reason: _ } => ErrorBuilder {
                error: AntlerError::InvalidPattern { pattern, reason: text },
            },
            other => ErrorBuilder { error: other },
        }
    }

    /// The error built so far.
    pub fn build(self) -> (r: AntlerError)
        ensures
            r == self.error,
    {
        self.error
    }
}

/// Adds context to failures of asynchronous operations.
pub trait AsyncErrorContext {
    type Output;

    fn context(self, msg: &str) -> Self::Output;
}

} // verus!
