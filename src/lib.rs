//! Guess which X display a shell should talk to by sampling the user's own
//! processes and holding a popularity contest over the `DISPLAY` and
//! `XAUTHORITY` values found in their environments.

pub mod candidates;
pub mod env_list;
pub mod environ;
pub mod error;
pub mod population;
pub mod sampling;
pub mod shell;
pub mod survey;
mod text;
