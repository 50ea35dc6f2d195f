//! Lyric analysis: syllable counting, rhyme lookup in a pronunciation
//! dictionary, and rhyme highlighting for song texts.

pub mod text;
pub mod pattern;
pub mod hyphen;
pub mod dictionary;
pub mod layout;
pub mod phonetics;
pub mod linguistics;
pub mod highlight;
