//! Decision library for a two-phase (day/night) base-defence bot.
pub mod collections;
pub mod domain;
pub mod event;
pub mod fsm;
pub mod rules;
pub mod text;
pub mod world;
pub mod ai;
pub mod num;
pub mod command;
pub mod clock;
pub mod protocol;
pub mod runtime;
