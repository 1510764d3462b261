//! Constraint-based routing to accessible public legal-service locations.

pub mod api;
pub mod api_laws;
pub mod api_results;
pub mod capacity;
pub mod catalog;
pub mod catalog_results;
pub mod db;
pub mod distance;
pub mod error;
pub mod grouping;
pub mod ident;
pub mod import;
pub mod instant;
pub mod json;
pub mod keyed;
pub mod model;
pub mod model_laws;
pub mod model_results;
pub mod models;
pub mod order;
pub mod planner;
pub mod planner_laws;
pub mod planner_results;
pub mod router;
pub mod router_laws;
pub mod router_results;
pub mod routing;
pub mod routing_laws;
pub mod routing_results;
pub mod rows;
pub mod rows_results;
pub mod store;
pub mod store_laws;
pub mod store_results;
pub mod text;
pub mod text_laws;
