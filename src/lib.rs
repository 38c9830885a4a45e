//! Search for the spot of a world whose surroundings hold the most slime
//! chunks, with a bit-exact model of the 48-bit linear congruential generator
//! that decides which chunks are slime chunks.

pub mod javarandom;
pub mod chunk;
pub mod spiral;
pub mod offsets;
pub mod search;
pub mod seed;
