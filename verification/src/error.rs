//! Error type for tree operations, with constructors that build their
//! messages from the context they are given.
use vstd::prelude::*;

verus! {

/// Error type for B+ tree operations.
#[derive(Debug, Clone, PartialEq)]
pub enum BPlusTreeError {
    /// Key not found in the tree.
    KeyNotFound,
    /// Invalid capacity specified.
    InvalidCapacity(String),
    /// Internal data structure integrity violation.
    DataIntegrityError(String),
    /// Arena operation failed.
    ArenaError(String),
    /// Node operation failed.
    NodeError(String),
    /// Tree corruption detected.
    CorruptedTree(String),
    /// Invalid tree state.
    InvalidState(String),
    /// Memory allocation failed.
    AllocationError(String),
}

/// Result type for tree operations that may fail.
pub type BTreeResult<T> = Result<T, BPlusTreeError>;

/// Result type for key lookup operations.
pub type KeyResult<T> = Result<T, BPlusTreeError>;

/// Result type for tree modification operations.
pub type ModifyResult<T> = Result<T, BPlusTreeError>;

/// Result type for tree construction and validation.
pub type InitResult<T> = Result<T, BPlusTreeError>;

/// The character of a decimal digit.
pub open spec fn digit_char(d: nat) -> char {
    ((48 + d) as u32) as char
}

/// Decimal notation of a natural number, most significant digit first.
pub open spec fn decimal(n: nat) -> Seq<char>
    decreases n,
{
    if n < 10 {
        seq![digit_char(n)]
    } else {
        decimal(n / 10).push(digit_char(n % 10))
    }
}

/// The two strings joined, built with `format!`.
#[verifier::external_body]
pub(crate) fn concat_str(a: &str, b: &str) -> (r: String)
    ensures
        r@ == a@ + b@,
{
    format!("{}{}", a, b)
}

/// Decimal notation of `n`, built with `format!`.
#[verifier::external_body]
pub(crate) fn decimal_string(n: usize) -> (r: String)
    ensures
        r@ == decimal(n as nat),
{
    format!("{}", n)
}

/// `a`, then `sep`, then `b`.
fn join3(a: &str, sep: &str, b: &str) -> (r: String)
    ensures
        r@ == a@ + sep@ + b@,
{
    let first = concat_str(a, sep);
    concat_str(first.as_str(), b)
}

impl BPlusTreeError {
    /// Create an InvalidCapacity error with context.
    pub fn invalid_capacity(capacity: usize, min_required: usize) -> (r: Self)
        ensures
            r is InvalidCapacity,
            r->InvalidCapacity_0@ == "Capacity "@ + decimal(capacity as nat)
                + " is invalid (minimum required: "@ + decimal(min_required as nat) + ")"@,
    {
        let c = decimal_string(capacity);
        let m = decimal_string(min_required);
        let a = join3("Capacity ", c.as_str(), " is invalid (minimum required: ");
        let b = join3(a.as_str(), m.as_str(), ")");
        BPlusTreeError::InvalidCapacity(b)
    }

    /// Create a DataIntegrityError with context.
    pub fn data_integrity(context: &str, details: &str) -> (r: Self)
        ensures
            r is DataIntegrityError,
            r->DataIntegrityError_0@ == context@ + ": "@ + details@,
    {
        BPlusTreeError::DataIntegrityError(join3(context, ": ", details))
    }

    /// Create an ArenaError with context.
    pub fn arena_error(operation: &str, details: &str) -> (r: Self)
        ensures
            r is ArenaError,
            r->ArenaError_0@ == operation@ + " failed: "@ + details@,
    {
        BPlusTreeError::ArenaError(join3(operation, " failed: ", details))
    }

    /// Create a NodeError with context.
    pub fn node_error(node_type: &str, node_id: u32, details: &str) -> (r: Self)
        ensures
            r is NodeError,
            r->NodeError_0@ == node_type@ + " node "@ + decimal(node_id as nat) + ": "@
                + details@,
    {
        let id = decimal_string(node_id as usize);
        let a = join3(node_type, " node ", id.as_str());
        BPlusTreeError::NodeError(join3(a.as_str(), ": ", details))
    }

    /// Create a CorruptedTree error with context.
    pub fn corrupted_tree(component: &str, details: &str) -> (r: Self)
        ensures
            r is CorruptedTree,
            r->CorruptedTree_0@ == component@ + " corruption: "@ + details@,
    {
        BPlusTreeError::CorruptedTree(join3(component, " corruption: ", details))
    }

    /// Create an InvalidState error with context.
    pub fn invalid_state(operation: &str, state: &str) -> (r: Self)
        ensures
            r is InvalidState,
            r->InvalidState_0@ == "Cannot "@ + operation@ + " in state: "@ + state@,
    {
        let a = join3("Cannot ", operation, " in state: ");
        BPlusTreeError::InvalidState(concat_str(a.as_str(), state))
    }

    /// Create an AllocationError with context.
    pub fn allocation_error(resource: &str, reason: &str) -> (r: Self)
        ensures
            r is AllocationError,
            r->AllocationError_0@ == "Failed to allocate "@ + resource@ + ": "@ + reason@,
    {
        let a = join3("Failed to allocate ", resource, ": ");
        BPlusTreeError::AllocationError(concat_str(a.as_str(), reason))
    }

    /// Check if this error is a capacity error.
    pub fn is_capacity_error(&self) -> (r: bool)
        ensures
            r == (*self is InvalidCapacity),
    {
        match self {
            BPlusTreeError::InvalidCapacity(_) => true,
            _ => false,
        }
    }

    /// Check if this error is an arena error.
    pub fn is_arena_error(&self) -> (r: bool)
        ensures
            r == (*self is ArenaError),
    {
        match self {
            BPlusTreeError::ArenaError(_) => true,
            _ => false,
        }
    }
}

/// The text of an error, as shown to users.
pub open spec fn error_message(e: BPlusTreeError) -> Seq<char> {
    match e {
        BPlusTreeError::KeyNotFound => "Key not found in tree"@,
        BPlusTreeError::InvalidCapacity(m) => "Invalid capacity: "@ + m@,
        BPlusTreeError::DataIntegrityError(m) => "Data integrity error: "@ + m@,
        BPlusTreeError::ArenaError(m) => "Arena error: "@ + m@,
        BPlusTreeError::NodeError(m) => "Node error: "@ + m@,
        BPlusTreeError::CorruptedTree(m) => "Corrupted tree: "@ + m@,
        BPlusTreeError::InvalidState(m) => "Invalid state: "@ + m@,
        BPlusTreeError::AllocationError(m) => "Allocation error: "@ + m@,
    }
}

impl BPlusTreeError {
    /// The text of the error: its kind followed by its message.
    pub fn to_string(&self) -> (r: String)
        ensures
            r@ == error_message(*self),
    {
        match self {
            BPlusTreeError::KeyNotFound => String::from_str("Key not found in tree"),
            BPlusTreeError::InvalidCapacity(msg) => concat_str("Invalid capacity: ", msg.as_str()),
            BPlusTreeError::DataIntegrityError(msg) => concat_str("Data integrity error: ", msg.as_str()),
            BPlusTreeError::ArenaError(msg) => concat_str("Arena error: ", msg.as_str()),
            BPlusTreeError::NodeError(msg) => concat_str("Node error: ", msg.as_str()),
            BPlusTreeError::CorruptedTree(msg) => concat_str("Corrupted tree: ", msg.as_str()),
            BPlusTreeError::InvalidState(msg) => concat_str("Invalid state: ", msg.as_str()),
            BPlusTreeError::AllocationError(msg) => concat_str("Allocation error: ", msg.as_str()),
        }
    }
}

/// Whether `r` is `e` with `context` worked into its message, as
/// `with_context` does it.
pub open spec fn is_contextual(e: BPlusTreeError, context: Seq<char>, r: BPlusTreeError) -> bool {
    match e {
        BPlusTreeError::KeyNotFound => r is KeyNotFound,
        BPlusTreeError::InvalidCapacity(m) => r is InvalidCapacity && r->InvalidCapacity_0@
            == context + ": "@ + m@,
        BPlusTreeError::DataIntegrityError(m) => r is DataIntegrityError
            && r->DataIntegrityError_0@ == context + ": "@ + m@,
        BPlusTreeError::ArenaError(m) => r is ArenaError && r->ArenaError_0@ == context
            + " failed: "@ + m@,
        BPlusTreeError::NodeError(m) => r is NodeError && r->NodeError_0@ == context + ": "@
            + m@,
        BPlusTreeError::CorruptedTree(m) => r is CorruptedTree && r->CorruptedTree_0@ == context
            + " corruption: "@ + m@,
        BPlusTreeError::InvalidState(m) => r is InvalidState && r->InvalidState_0@ == "Cannot "@
            + context + " in state: "@ + m@,
        BPlusTreeError::AllocationError(m) => r is AllocationError && r->AllocationError_0@
            == "Failed to allocate "@ + context + ": "@ + m@,
    }
}

/// Result extension for adding context to errors.
pub trait BTreeResultExt<T>: Sized {
    /// Convert to a BTreeResult with additional context in the error message.
    fn with_context(self, context: &str) -> BTreeResult<T>;

    /// Convert to a BTreeResult with operation context.
    fn with_operation(self, operation: &str) -> BTreeResult<T>;
}

impl<T> BTreeResultExt<T> for Result<T, BPlusTreeError> {
    fn with_context(self, context: &str) -> (r: BTreeResult<T>)
        ensures
            self is Ok ==> r == self,
            self is Err ==> r is Err && is_contextual(self->Err_0, context@, r->Err_0),
    {
        match self {
            Ok(v) => Ok(v),
            Err(e) => {
                let r = match e {
                    BPlusTreeError::KeyNotFound => BPlusTreeError::KeyNotFound,
                    BPlusTreeError::InvalidCapacity(msg) => BPlusTreeError::InvalidCapacity(
                        join3(context, ": ", msg.as_str()),
                    ),
                    BPlusTreeError::DataIntegrityError(msg) => BPlusTreeError::data_integrity(
                        context,
                        msg.as_str(),
                    ),
                    BPlusTreeError::ArenaError(msg) => BPlusTreeError::arena_error(
                        context,
                        msg.as_str(),
                    ),
                    BPlusTreeError::NodeError(msg) => BPlusTreeError::NodeError(
                        join3(context, ": ", msg.as_str()),
                    ),
                    BPlusTreeError::CorruptedTree(msg) => BPlusTreeError::corrupted_tree(
                        context,
                        msg.as_str(),
                    ),
                    BPlusTreeError::InvalidState(msg) => BPlusTreeError::invalid_state(
                        context,
                        msg.as_str(),
                    ),
                    BPlusTreeError::AllocationError(msg) => BPlusTreeError::allocation_error(
                        context,
                        msg.as_str(),
                    ),
                };
                Err(r)
            },
        }
    }

    fn with_operation(self, operation: &str) -> (r: BTreeResult<T>)
        ensures
            self is Ok ==> r == self,
            self is Err ==> r is Err && is_contextual(
                self->Err_0,
                "Operation '"@ + operation@ + "'"@,
                r->Err_0,
            ),
    {
        let context = join3("Operation '", operation, "'");
        self.with_context(context.as_str())
    }
}

} // verus!
