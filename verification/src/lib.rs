//! Verified core of a no-clip tool for God of War: Ragnarok (PC): signature
//! scanning of PE images, the game's memory layout, and the control decisions.
pub mod pattern;
pub mod sigscanner;
pub mod pe_file;
pub mod memory_mappings;
pub mod memory_resolver;
pub mod controls;
