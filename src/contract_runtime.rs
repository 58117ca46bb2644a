//! Events of the contract runtime component.

use vstd::prelude::*;

verus! {

/// An event of the contract runtime component.
#[derive(Debug, Clone, Copy, PartialEq, Eq, Structural)]
pub enum Event {
    Foo,
    Bar,
}

impl Event {
    /// The event's name, as it is shown.
    pub fn name(&self) -> (r: &'static str)
        ensures
            r@ == (match self {
                Event::Foo => "foo"@,
                Event::Bar => "bar"@,
            }),
    {
        match self {
            Event::Foo => "foo",
            Event::Bar => "bar",
        }
    }
}

} // verus!
