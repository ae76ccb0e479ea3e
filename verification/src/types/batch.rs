//! Parts of requests and responses of the Message Batches API.
use vstd::prelude::*;

verus! {

/// How far a batch is.
#[derive(Debug, Clone, Copy, PartialEq, Eq, Structural)]
pub enum BatchStatus {
    /// Requests are being processed.
    InProgress,
    /// The batch is being canceled.
    Canceling,
    /// All requests have ended.
    Ended,
}

/// How many requests of a batch are how far.
#[derive(Debug, Clone, Copy, PartialEq, Eq, Structural)]
pub struct BatchRequestCounts {
    /// Not ended yet.
    pub processing: u64,
    /// Answered.
    pub succeeded: u64,
    /// Ended in an error.
    pub errored: u64,
    /// Canceled.
    pub canceled: u64,
    /// Not processed in time.
    pub expired: u64,
}

/// The state of a batch.
#[derive(Debug, Clone)]
pub struct BatchResponse {
    /// Names the batch.
    pub id: String,
    /// Always `message_batch`.
    pub batch_type: Option<String>,
    /// How far it is.
    pub processing_status: BatchStatus,
    /// How far its requests are.
    pub request_counts: BatchRequestCounts,
    /// When it ended.
    pub ended_at: Option<String>,
    /// When it was made.
    pub created_at: String,
    /// When it expires.
    pub expires_at: String,
    /// Where its results are.
    pub results_url: Option<String>,
    /// When it was to be canceled.
    pub cancel_initiated_at: Option<String>,
    /// When its results went to the archive.
    pub archived_at: Option<String>,
}

/// A page of batches.
#[derive(Debug, Clone)]
pub struct ListBatchesResponse {
    /// The batches.
    pub data: Vec<BatchResponse>,
    /// There are more in the direction that was asked for.
    pub has_more: bool,
    /// The first of the batches: the previous page ends before it.
    pub first_id: Option<String>,
    /// The last of the batches: the next page starts after it.
    pub last_id: Option<String>,
}

/// Which page of batches is asked for.
#[derive(Debug, Clone)]
pub struct ListBatchesParams {
    /// The page after this batch.
    pub after_id: Option<String>,
    /// The page before this batch.
    pub before_id: Option<String>,
    /// How many batches.
    pub limit: Option<u32>,
}

impl Default for ListBatchesParams {
    /// The first page, as long as the server likes.
    fn default() -> (r: Self)
        ensures
            r.after_id is None && r.before_id is None && r.limit is None,
    {
        ListBatchesParams { after_id: None, before_id: None, limit: None }
    }
}

/// An error of one request of a batch.
#[derive(Debug, Clone)]
pub struct BatchError {
    /// The API's name for the kind of error.
    pub error_type: String,
    /// What the API says about it.
    pub message: String,
}

} // verus!
