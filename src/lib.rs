//! Earliest-arrival journey planning over a static transit timetable.
pub mod geo_utils;
pub mod gtfs;
pub mod min_heap;
pub mod network;
pub mod query;
pub mod sorting;
pub mod stop_groups;
pub mod str_utils;
pub mod text_interface;
