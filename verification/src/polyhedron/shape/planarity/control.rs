use vstd::prelude::*;

verus! {

/// Control flow for `depth_first_search` callbacks.
#[derive(Copy, Clone, Debug)]
pub enum Control {
    /// Continue the DFS traversal as normal.
    Continue,
    /// Prune the current node from the DFS traversal. No more edges from this
    /// node will be reported to the callback. A `DfsEvent::Finish` for this
    /// node will still be reported.
    Prune,
    /// Stop the DFS traversal and return the provided value.
    Break,
}

/// Control flow for callbacks.
///
/// The empty return value `()` is equivalent to continue.
pub trait ControlFlow: Sized {
    /// Whether the value asks the traversal to stop.
    spec fn breaks(&self) -> bool;

    /// Whether the value asks the traversal to skip the current node's edges.
    spec fn prunes(&self) -> bool;

    fn continuing() -> (r: Self)
        ensures
            !r.breaks(),
            !r.prunes(),
    ;

    fn should_break(&self) -> (r: bool)
        ensures
            r == self.breaks(),
    ;

    fn should_prune(&self) -> (r: bool)
        ensures
            r == self.prunes(),
    ;
}

impl ControlFlow for () {
    open spec fn breaks(&self) -> bool {
        false
    }

    open spec fn prunes(&self) -> bool {
        false
    }

    fn continuing() {
    }

    fn should_break(&self) -> (r: bool) {
        false
    }

    fn should_prune(&self) -> (r: bool) {
        false
    }
}

impl ControlFlow for Control {
    open spec fn breaks(&self) -> bool {
        *self is Break
    }

    open spec fn prunes(&self) -> bool {
        *self is Prune
    }

    fn continuing() -> (r: Self) {
        Control::Continue
    }

    fn should_break(&self) -> (r: bool) {
        if let Control::Break = *self {
            true
        } else {
            false
        }
    }

    fn should_prune(&self) -> (r: bool) {
        match *self {
            Control::Prune => true,
            Control::Continue | Control::Break => false,
        }
    }
}

impl<C: ControlFlow, E> ControlFlow for Result<C, E> {
    open spec fn breaks(&self) -> bool {
        match self {
            Ok(c) => c.breaks(),
            Err(_) => true,
        }
    }

    open spec fn prunes(&self) -> bool {
        match self {
            Ok(c) => c.prunes(),
            Err(_) => false,
        }
    }

    fn continuing() -> (r: Self) {
        Ok(C::continuing())
    }

    fn should_break(&self) -> (r: bool) {
        if let Ok(ref c) = *self {
            c.should_break()
        } else {
            true
        }
    }

    fn should_prune(&self) -> (r: bool) {
        if let Ok(ref c) = *self {
            c.should_prune()
        } else {
            false
        }
    }
}

} // verus!
