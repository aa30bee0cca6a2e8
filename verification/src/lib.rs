//! An in-memory index of parsed Aseprite files: each loaded file gets a
//! stable identifier, assigned from its position in the load order, and the
//! files are kept in a map keyed by that identifier.

pub mod ase;
