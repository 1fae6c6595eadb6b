pub mod chooser;
pub mod envelope;
pub mod laws;
pub mod locate;
pub mod node;
pub mod params;
pub mod rstar;
pub mod rtree;
pub mod split;
