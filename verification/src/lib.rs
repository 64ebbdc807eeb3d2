//! A collection of small puzzle engines, each verified: the heart is the
//! multi-stage range remapper of `garden` — rules with disjoint domains
//! and additive offsets, stages that split ranges at domain boundaries
//! without losing or duplicating a single unit of length, and a pipeline
//! that drives whole collections of ranges to the smallest final
//! location. Around it sit the smaller engines: calibration scans, the
//! cube game, the engine schematic, scratchcards, boat races, camel
//! cards, the pipe maze, oasis readings, and the expanding cosmos.

pub mod calibration;
pub mod calibration_digits;
pub mod calibration_words;
pub mod camel_cards;
pub mod camel_cards_winnings;
pub mod cosmos;
pub mod cube_game;
pub mod cube_game_possible;
pub mod cube_game_power;
pub mod garden;
pub mod oasis;
pub mod pipes;
pub mod race;
pub mod schematic;
pub mod schematic_gears;
pub mod schematic_parts;
pub mod scratchcards;
pub mod scratchcards_copies;
pub mod scratchcards_points;
pub mod seed_locations;
pub mod seed_range_locations;
pub mod text;
