//! nc2000-bot: the bot-side logic of the NC2000 engine project, with its
//! behaviour stated as contracts and proved.

pub mod rng;
pub mod text;
pub mod artifact;
pub mod sort;
pub mod preview;
pub mod position;
pub mod import;
pub mod agent;
pub mod protocol;
pub mod corpus;
pub mod fabricate;
pub mod observe;
pub mod belief;
pub mod duel;
pub mod blind;
pub mod bounds;
pub mod tracker;
