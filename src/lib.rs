//! Resolution of ICAO flight-plan routes against an aeronautical reference database.
pub mod text;
pub mod entities;
pub mod field15;
pub mod database;
pub mod routes;
pub mod path;
pub mod linearize;
pub mod ordering;
pub mod procedures;
pub mod enrich;
pub mod theorems;
