use vstd::prelude::*;

verus! {

/// Why a command could not be handed to the receive worker.
#[derive(Clone, Copy, Debug, PartialEq, Eq, Structural)]
pub enum DeviceError {
    /// The command does not fit the state the application is in.
    BadState,
    /// The receive thread has panicked.
    WorkerPoisoned,
}

/// The receive thread has panicked.
#[derive(Clone, Copy, Debug, PartialEq, Eq, Structural)]
pub struct WorkerPoisoned;

impl DeviceError {
    /// A one-line description of the error.
    pub fn message(&self) -> (r: &'static str)
        ensures
            r@ == match self {
                DeviceError::BadState => "The application is in a bad state."@,
                DeviceError::WorkerPoisoned => "The receive thread has panicked."@,
            },
    {
        match self {
            DeviceError::BadState => "The application is in a bad state.",
            DeviceError::WorkerPoisoned => "The receive thread has panicked.",
        }
    }
}

impl WorkerPoisoned {
    /// A one-line description of the error.
    pub fn message(&self) -> (r: &'static str)
        ensures
            r@ == "The receive thread has panicked."@,
    {
        "The receive thread has panicked."
    }
}

/// Accepts the outcome of sending a command to the worker. A poisoned worker
/// is passed over, since the next poll of the worker deals with it; a
/// command sent in a bad state is a fatal error that callers rule out.
pub fn handle_send_result(result: Result<(), DeviceError>)
    requires
        result != Err::<(), DeviceError>(DeviceError::BadState),
{
    match result {
        Err(DeviceError::BadState) => {
            assert(false);
        },
        Err(DeviceError::WorkerPoisoned) | Ok(()) => {},
    }
}

} // verus!
