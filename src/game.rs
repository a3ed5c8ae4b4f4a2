use vstd::prelude::*;

verus! {

/// The running program.
pub struct Game {}

/// Assembles a `Game`.
pub struct GameBuilder {}

impl GameBuilder {
    pub fn build() {
    }
}

} // verus!
