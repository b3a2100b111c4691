//! The deterministic scheduling state machine.
//!
//! Time is an argument of every operation, so a run is a function of its
//! inputs. What holds of every state:
//!
//! - one enqueue yields at most one permit;
//! - FIFO within the same effective priority: within a grant pass nothing is
//!   granted ahead of an unlaned candidate of higher effective priority, or of
//!   an older one of the same, and unlaned jobs of the same scope, weight and
//!   priority leave in order of age, pass after pass; ordering lanes are
//!   strictly FIFO in enqueue order regardless of priority or delay;
//! - a grant pass grants whatever fits, and leaves nobody parked behind a hold
//!   that has ended;
//! - at most one in-flight request per serial lane, at most one that has not
//!   started per ordered-start lane, and only the lane head can be granted;
//! - a chat is held to the windows of its kind, and to those of any kind;
//! - cancelling a waiting job removes it without a phantom lock;
//! - rolling-window budget is debited at grant time and never refunded;
//! - `RetryAfter` penalties carry an explicit scope and are never derived
//!   from the request scope;
//! - the scheduler never retries requests on its own;
//! - pending jobs of the same latest-wins slot are replaced (the replacement
//!   inherits the queue position and the scheduling age of the superseded
//!   job), and incompatible metadata is rejected;
//! - a job whose weight fits no applicable window is rejected at enqueue;
//! - a top-aged candidate blocked by window capacity reserves the window, so
//!   a heavy job cannot starve behind a stream of lighter ones;
//! - arbitration is event-driven: a persistent candidate heap is popped
//!   incrementally and failed candidates sleep in a blocked deadline heap.

pub mod arbitration;
pub mod arbitration_ops;
pub mod arbitration_pass;
pub mod coalesce;
pub mod coverage;
pub mod coverage_ops;
pub mod coverage_pass;
pub mod deadlines;
pub mod enqueue;
pub mod entries;
pub mod fairness;
pub mod finish;
pub mod grant;
pub mod history;
pub mod lane;
pub mod laws;
pub mod model;
pub mod order;
pub mod outcome;
pub mod parking;
pub mod parking_ops;
pub mod parking_pass;
pub mod pass;
pub mod penalties;
pub mod picking;
pub mod progress;
pub mod promote;
pub mod queues;
pub mod rebase;
pub mod soundness;
pub mod soundness_accept;
pub mod soundness_enqueue;
pub mod soundness_grant;
pub mod spending;
pub mod state;
pub mod turns;
pub mod wakeups;
