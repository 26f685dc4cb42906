//! Server-side coordination core for long-running "action" goals: the
//! per-goal state machine, the registry that lets results reach late
//! subscribers, the cancellation protocol, and the expiration of terminated
//! goals.
//!
//! The core is deliberately free of I/O. Each readiness handler takes the
//! already-taken request together with the user callback's decision as plain
//! values, mutates the goal bookkeeping, and returns the ordered list of
//! [`ServerAction`]s the surrounding runtime must perform.

pub mod handle;
pub mod laws;
pub mod registry;
pub mod server;
pub mod types;

pub use server::ActionServer;
pub use server::ActionServerBase;
pub use server::ActionServerHandle;
pub use server::EventModel;
pub use server::ReadyEvent;
pub use server::ServerModel;
pub use server::absorb_send_result;

pub use registry::GoalRegistry;
pub use registry::Keyed;
pub use registry::RegistryModel;
pub use registry::RequestQueue;
pub use registry::RequestQueueModel;
pub use registry::ResultEntry;
pub use registry::ResultModel;

pub use handle::HandleModel;
pub use handle::ServerGoalHandle;
pub use types::ActionServerError;
pub use types::CancelRequestMsg;
pub use types::CancelResponse;
pub use types::CancelResponseModel;
pub use types::CancelResponseMsg;
pub use types::CancelReturnCode;
pub use types::FeedbackModel;
pub use types::FeedbackMsg;
pub use types::GoalInfo;
pub use types::GoalResponse;
pub use types::GoalStatus;
pub use types::GoalUuid;
pub use types::MiddlewareSendResult;
pub use types::ReadyMode;
pub use types::RequestId;
pub use types::ResultResponseModel;
pub use types::ResultResponseMsg;
pub use types::ActionModel;
pub use types::ServerAction;
pub use types::StatusEntry;
pub use types::WaitableNumEntities;
