//! A printed-circuit-board auto-router: reads a Specctra DSN design, routes its
//! nets on a grid with an A* maze search, and writes the routes as a Specctra
//! SES session.

pub mod text;
pub mod sexp;
pub mod number;
pub mod dsn;
pub mod heap;
pub mod router;
pub mod ses;
pub mod readback;
