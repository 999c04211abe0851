use vstd::prelude::*;

verus! {

/// Self-described type of the server.
#[derive(Copy, Clone, Debug, PartialEq, Eq, Hash, Structural)]
pub enum Label {
    /// Default value.
    Unlabelled,
    /// This server is primarily social, or has no focus.
    Social,
    /// This server is dedicated to gaming.
    Gaming,
    /// This server is dedicated to MMORPG play, *n*-man content lasting for significant lengths of time.
    Raid,
    /// This server is dedicated to art.
    Art,
    /// This server is dedicated to music: discussion, listening...
    Music,
    /// This server is dedicated to tech, hardware, and software.
    Tech,
    /// This server label is not captured here.
    Other,
    /// This server is dedicated to tabletop RPGs.
    Tabletop,
}

impl Default for Label {
    fn default() -> (r: Self)
        ensures
            r == Label::Unlabelled,
    {
        Label::Unlabelled
    }
}

} // verus!
