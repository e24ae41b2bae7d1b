//! Verified core of a Minecraft server's data-pack, scoreboard and command
//! logic.
pub mod criteria;
pub mod packets;
pub mod text;
pub mod display_slot;
pub mod text_component;
pub mod team;
pub mod scoreboard;
pub mod order;
pub mod scoreboard_data;
pub mod reader;
pub mod identifier;
pub mod nbt_path;
pub mod arguments;
pub mod recipe;
pub mod scheduler;
pub mod stopwatch;
pub mod data_files;
pub mod data_pack;
pub mod execute;
pub mod advancement;
pub mod json;
pub mod loot;
pub mod wire;
pub mod client_packets;
pub mod nbt;
pub mod biome_predicate;
pub mod schedule_command;
pub mod plugin_scoreboard;
pub mod item_predicate;
pub mod scoreboard_laws;
