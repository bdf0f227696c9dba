//! A parser and staged loader for tile maps written as tables of prefabs
//! and rectangular grids of prefab keys.
//!
//! The text of a map is handled as bytes. Every delimiter of the grammar is
//! an ASCII byte, so a slice cut at a delimiter of well-formed UTF-8 text
//! is well-formed UTF-8 again.

pub mod block;
pub mod command_buffer;
pub mod dialects;
pub mod grid;
pub mod literal;
pub mod load_buffer;
pub mod locality;
pub mod metadata;
pub mod prefabs;
pub mod round_trip;
pub mod scan;
pub mod search;
pub mod table;
pub mod values;

use crate::block::{block_starts, blocks_outcome, multithreaded_parse_map_locations, Block};
use crate::metadata::{check_measures, well_measured};
use crate::prefabs::{
    all_lines_match, detect_tgm_from, lines_outcome, multithreaded_parse_map_prefabs,
    prefab_starts, spec_detect_tgm_from,
};
use crate::scan::{has_word, is_word, SyntaxError};
use crate::table::Prefabs;
use vstd::prelude::*;
use vstd::string::StringSliceAdditionalSpecFns;

verus! {

/// What is known of a map besides its contents.
#[derive(Debug)]
pub struct MapInfo {
    /// Whether the text is in the tabular dialect.
    pub is_tgm: bool,
    pub name: String,
}

/// A failure of one of the parsers that were started inside a text.
#[derive(Clone, Copy, Debug, PartialEq, Eq, Structural)]
pub struct LocatedError {
    /// The offset at which the parser was started.
    pub key_offset: usize,
    /// The offset at which it gave up.
    pub main_offset: usize,
    pub underlying: SyntaxError,
}

/// The prefab table and the blocks of a map.
pub type MapData<'s> = (Prefabs<'s>, Vec<Block<'s>>);

/// The line that a converter to the tabular dialect leaves at the start of
/// a file.
pub const HEADER: &'static str =
    "//MAP CONVERTED BY dmm2tgm.py THIS HEADER COMMENT PREVENTS RECONVERSION, DO NOT REMOVE";

/// The bytes of the header line.
pub open spec fn header() -> Seq<u8> {
    HEADER.spec_bytes()
}

/// The offset behind the header line, or 0 where the text has none.
pub open spec fn body_start(s: Seq<u8>) -> int {
    if has_word(s, 0, header()) {
        header().len() as int
    } else {
        0
    }
}

/// Skips the header line, if the text starts with it.
pub fn skip_header(text: &[u8]) -> (r: usize)
    ensures
        r == body_start(text@),
        r <= text@.len(),
{
    let line = HEADER.as_bytes();
    if is_word(text, 0, line) {
        line.len()
    } else {
        0
    }
}

/// Why a text is no map.
#[derive(Clone, Copy, Debug, PartialEq, Eq, Structural)]
pub enum MapError {
    /// A prefab line or a block does not parse.
    Syntax(LocatedError),
    /// The map has no key, its keys do not all have one length, a row is
    /// no positive multiple of it long, or the rows do not all have one
    /// length.
    Uneven,
}

/// What a map is assembled to from the outcome of its prefab lines and of
/// its blocks: the failure of the lines if they failed, else that of the
/// blocks, else `Uneven` where the keys and rows do not hang together,
/// else the map, with its name and its dialect.
pub open spec fn assembled(
    r: Result<(MapInfo, MapData), MapError>,
    name: Seq<char>,
    s: Seq<u8>,
    lines: Result<Prefabs, LocatedError>,
    blocks: Result<Vec<Block>, LocatedError>,
) -> bool {
    match (lines, blocks) {
        (Err(e), _) => r == Err::<(MapInfo, MapData), MapError>(MapError::Syntax(e)),
        (Ok(_), Err(e)) => r == Err::<(MapInfo, MapData), MapError>(MapError::Syntax(e)),
        (Ok(table), Ok(list)) => if well_measured(table, list@) {
            r matches Ok((info, (prefabs, placed))) && prefabs == table && placed == list
                && info.name@ == name && info.is_tgm == spec_detect_tgm_from(s, body_start(s))
        } else {
            r == Err::<(MapInfo, MapData), MapError>(MapError::Uneven)
        },
    }
}

/// Assembles a map from the outcome of its prefab lines and of its
/// blocks. In every map that is assembled the keys have one length above
/// 0 and the rows have one length, a positive multiple of that of a key.
pub fn assemble_map<'s>(
    name: String,
    text: &[u8],
    lines: Result<Prefabs<'s>, LocatedError>,
    blocks: Result<Vec<Block<'s>>, LocatedError>,
) -> (r: Result<(MapInfo, MapData<'s>), MapError>)
    ensures
        assembled(r, name@, text@, lines, blocks),
{
    let prefabs = match lines {
        Ok(prefabs) => prefabs,
        Err(e) => {
            return Err(MapError::Syntax(e));
        },
    };
    let blocks = match blocks {
        Ok(blocks) => blocks,
        Err(e) => {
            return Err(MapError::Syntax(e));
        },
    };
    if !check_measures(&prefabs, &blocks) {
        return Err(MapError::Uneven);
    }
    let is_tgm = detect_tgm_from(text, skip_header(text));
    Ok((MapInfo { is_tgm, name }, (prefabs, blocks)))
}

/// Parses a whole map: its dialect, its prefab table and its blocks. The
/// prefab lines and the blocks are looked for in the whole text, and each
/// one found must parse. The first prefab line that does not parse fails
/// the map, else the first such block, else a table without a key, keys
/// of more than one length, a row that is not cut into keys without a
/// rest or rows of more than one length.
pub fn parse_map_multithreaded<'s>(name: String, i: &'s str) -> (r: Result<
    (MapInfo, MapData<'s>),
    MapError,
>)
    ensures
        match r {
            Ok((info, (prefabs, blocks))) => {
                &&& info.name@ == name@
                &&& info.is_tgm == spec_detect_tgm_from(
                    i.spec_bytes(),
                    body_start(i.spec_bytes()),
                )
                &&& lines_outcome(Ok(prefabs), i.spec_bytes(), prefab_starts(i@))
                &&& blocks_outcome(Ok(blocks), i.spec_bytes(), block_starts(i@))
                &&& well_measured(prefabs, blocks@)
            },
            Err(MapError::Syntax(e)) => {
                ||| lines_outcome(Err(e), i.spec_bytes(), prefab_starts(i@))
                ||| (all_lines_match(
                    i.spec_bytes(),
                    prefab_starts(i@),
                    prefab_starts(i@).len() as int,
                ) && blocks_outcome(Err(e), i.spec_bytes(), block_starts(i@)))
            },
            Err(MapError::Uneven) => exists|prefabs: Prefabs, blocks: Vec<Block>|
                lines_outcome(Ok(prefabs), i.spec_bytes(), prefab_starts(i@)) && blocks_outcome(
                    Ok(blocks),
                    i.spec_bytes(),
                    block_starts(i@),
                ) && !well_measured(prefabs, blocks@),
        },
{
    let lines = multithreaded_parse_map_prefabs(i);
    let blocks = multithreaded_parse_map_locations(i);
    assemble_map(name, i.as_bytes(), lines, blocks)
}

} // verus!
