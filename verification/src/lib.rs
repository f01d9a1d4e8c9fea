pub mod auth;
pub mod error;
pub mod handlers;
pub mod middleware;
pub mod models;
pub mod store;
pub mod text;
pub mod web;
