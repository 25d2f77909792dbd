//! The re-render signal that event handlers hand back.

use vstd::prelude::*;

verus! {

/// Whether an event changed anything that is on screen.
#[derive(Clone, Copy, Debug, PartialEq, Eq, Structural)]
pub enum ShouldRender {
    No,
    Yes,
}

impl From<()> for ShouldRender {
    /// Without information, render.
    fn from(_unit: ()) -> (signal: ShouldRender)
        ensures
            signal == ShouldRender::Yes,
    {
        ShouldRender::Yes
    }
}

impl vstd::std_specs::convert::FromSpecImpl<()> for ShouldRender {
    open spec fn obeys_from_spec() -> bool {
        true
    }

    open spec fn from_spec(_unit: ()) -> ShouldRender {
        ShouldRender::Yes
    }
}

impl ShouldRender {
    /// `true` exactly for [`ShouldRender::Yes`].
    pub fn should_render(self) -> (render: bool)
        ensures
            render == (self == ShouldRender::Yes),
    {
        match self {
            ShouldRender::Yes => true,
            ShouldRender::No => false,
        }
    }
}

} // verus!
