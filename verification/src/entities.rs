use vstd::prelude::*;

verus! {

/// What an actor is doing: standing by or shooting.
#[allow(non_camel_case_types)]
#[derive(Clone, Copy, Debug, PartialEq, Eq, Structural)]
pub enum ActorState {
    BASE,
    SHOOT,
}

} // verus!
