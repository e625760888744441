//! Verified content and decision logic of the Runique demo application:
//! markdown seeding of the documentation and the courses, card grouping for
//! the changelog and roadmap pages, the exercise-assistant state machine,
//! and the admin helpers.

pub mod text;
pub mod names;
pub mod numbers;
pub mod docs;
pub mod courses;
pub mod assistant;
pub mod cards;
pub mod admin;
pub mod schema;
pub mod handlers;
pub mod psql;
