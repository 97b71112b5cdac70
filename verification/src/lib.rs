//! Verified core of a self-play trainer for a simultaneous-move snake game.

pub mod arena;
pub mod batching;
pub mod bench;
pub mod board;
pub mod bouts;
pub mod burst;
pub mod chance;
pub mod config;
pub mod d4;
pub mod gate;
pub mod groups;
pub mod h2h;
pub mod heldout;
pub mod league;
pub mod lists;
pub mod live;
pub mod matchup;
pub mod materialize;
pub mod metrics;
pub mod order;
pub mod pairs;
pub mod placing;
pub mod pretrain;
pub mod rankings;
pub mod registry;
pub mod replay;
pub mod rules;
pub mod sample;
pub mod selfplay;
pub mod session;
pub mod shards;
pub mod sparring;
pub mod state;
pub mod stations;
pub mod text;
pub mod tree;
pub mod viewer;
pub mod trajectory;
pub mod trainer;
