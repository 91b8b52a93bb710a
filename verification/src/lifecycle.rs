use vstd::prelude::*;

verus! {

/// The lifecycle tag attached to every stored record.
///
/// The store treats it as a passive, equality-comparable label: no
/// transition order is enforced, and any state may be set from any other.
#[derive(Clone, Copy, Debug, PartialEq, Eq, Structural)]
pub enum State {
    Runnable,
    Running,
    Finished,
    Failed,
}

impl Default for State {
    /// A freshly created record starts out runnable.
    fn default() -> (r: Self)
        ensures
            r == State::Runnable,
    {
        State::Runnable
    }
}

} // verus!
