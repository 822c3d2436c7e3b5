//! The run as a whole: from the raw table to the tiles.

use vstd::prelude::*;
use crate::bounds::get_limits;
use crate::bounds::lemma_bounds_fit;
use crate::bounds::lemma_envelope_unique;
use crate::bounds::lemma_limits_of;
use crate::bounds::limits_of;
use crate::bounds::Bounds;
use crate::cell_id::decode;
use crate::cell_id::decode_cell_id;
use crate::error::TileError;
use crate::probe::filter_transcripts;
use crate::probe::lemma_filter_keeps_exactly;
use crate::probe::retained;
use crate::table::get_row_count;
use crate::table::table_fits;
use crate::table::table_is_valid;
use crate::table::DecodedTranscript;
use crate::table::Transcript;
use crate::table::COORD_LIMIT;
use crate::text::chars_of;
use crate::text::ends_with;
use crate::text::has_suffix;
use crate::text::same_text;
use crate::tile::has_sparse_request;
use crate::tile::lemma_no_sparse_request;
use crate::tile::lemma_settles_once;
use crate::tile::request_number;
use crate::tile::partition;
use crate::tile::partitioned;
use crate::tile::Rect;

verus! {

/// The configuration of a run.
#[derive(Clone, Debug, PartialEq, Eq)]
pub struct Args {
    /// The path of the transcript table.
    pub in_file: String,
    /// The width of the tiles.
    pub width: i64,
    /// The height of the tiles.
    pub height: i64,
    /// How far neighbouring tiles reach into each other, and how far a tile
    /// with too few transcripts is pushed outward on each side.
    pub overlap: i64,
    /// The least number of transcripts in a tile.
    pub minimal_transcripts: usize,
    /// Whether transcripts outside a nucleus lose their cell.
    pub nucleus_only: bool,
    /// The directory that receives the tiles.
    pub out_dir: String,
}

/// How the transcript table is stored.
#[derive(Clone, Copy, Debug, PartialEq, Eq, Structural)]
pub enum InputFormat {
    Parquet,
    Csv,
}

/// What a run hands over for writing.
#[derive(Clone, Debug, PartialEq, Eq)]
pub struct Plan {
    /// The table without control probes, cell identifiers decoded.
    pub transcripts: Vec<DecodedTranscript>,
    /// The envelope of `transcripts`.
    pub limits: Bounds,
    /// The tiles over `transcripts`, line by line.
    pub tiles: Vec<Rect>,
}

/// The format that a file name announces, if it announces one.
pub open spec fn input_format_of(path: Seq<char>) -> Option<InputFormat> {
    if ends_with(path, ".parquet"@) {
        Some(InputFormat::Parquet)
    } else if ends_with(path, ".csv"@) {
        Some(InputFormat::Csv)
    } else {
        None
    }
}

/// Tells the input format from the end of the file name.
pub fn input_format(path: &str) -> (format: Option<InputFormat>)
    ensures
        format == input_format_of(path@),
{
    let name = chars_of(path);
    if has_suffix(&name, &chars_of(".parquet")) {
        Some(InputFormat::Parquet)
    } else if has_suffix(&name, &chars_of(".csv")) {
        Some(InputFormat::Csv)
    } else {
        None
    }
}

/// What is to be said of a configuration before any data is read: the input
/// format, or the first fault. The tile must be wider and higher than the
/// overlap, the file name must announce a format, and the sizes must lie
/// within `COORD_LIMIT`.
pub open spec fn config_verdict(args: Args) -> Result<InputFormat, TileError> {
    if args.width <= args.overlap {
        Err(TileError::WidthNotAboveOverlap)
    } else if args.height <= args.overlap {
        Err(TileError::HeightNotAboveOverlap)
    } else if input_format_of(args.in_file@) is None {
        Err(TileError::UnsupportedInput)
    } else if args.overlap < -COORD_LIMIT || args.width > COORD_LIMIT || args.height
        > COORD_LIMIT {
        Err(TileError::OutOfRange)
    } else {
        Ok(input_format_of(args.in_file@)->Some_0)
    }
}

/// Checks a configuration before any data is read.
pub fn check_config(args: &Args) -> (verdict: Result<InputFormat, TileError>)
    ensures
        verdict == config_verdict(*args),
{
    if args.width <= args.overlap {
        return Err(TileError::WidthNotAboveOverlap);
    }
    if args.height <= args.overlap {
        return Err(TileError::HeightNotAboveOverlap);
    }
    match input_format(args.in_file.as_str()) {
        None => Err(TileError::UnsupportedInput),
        Some(format) => {
            if args.overlap < -COORD_LIMIT || args.width > COORD_LIMIT || args.height
                > COORD_LIMIT {
                Err(TileError::OutOfRange)
            } else {
                Ok(format)
            }
        },
    }
}

/// The cell identifier that counts for a record. A record marked
/// `UNASSIGNED` belongs to cell 0, and so does, in nucleus-only mode, every
/// record outside a nucleus.
pub open spec fn assigned_id(t: Transcript, nucleus_only: bool) -> Seq<char> {
    if t.cell_id@ == "UNASSIGNED"@ || (nucleus_only && !t.overlaps_nucleus) {
        "0"@
    } else {
        t.cell_id@
    }
}

/// Whether `out` is `table` with each cell identifier replaced by the one
/// that counts.
pub open spec fn normalized(
    table: Seq<Transcript>,
    nucleus_only: bool,
    out: Seq<Transcript>,
) -> bool {
    &&& out.len() == table.len()
    &&& forall|i: int|
        0 <= i < table.len() ==> {
            &&& (#[trigger] out[i]).row == table[i].row
            &&& out[i].cell_id@ == assigned_id(table[i], nucleus_only)
            &&& out[i].overlaps_nucleus == table[i].overlaps_nucleus
            &&& out[i].feature_name == table[i].feature_name
            &&& out[i].x == table[i].x
            &&& out[i].y == table[i].y
        }
}

/// Replaces each cell identifier by the one that counts.
pub fn normalize_cell_ids(table: &Vec<Transcript>, nucleus_only: bool) -> (out: Vec<Transcript>)
    ensures
        normalized(table@, nucleus_only, out@),
{
    let mut out: Vec<Transcript> = Vec::new();
    let mut i: usize = 0;
    while i < table.len()
        invariant
            i <= table.len(),
            normalized(table@.take(i as int), nucleus_only, out@),
        decreases table.len() - i,
    {
        let t = &table[i];
        let unassigned = same_text(t.cell_id.as_str(), "UNASSIGNED");
        let cell_id = if unassigned || (nucleus_only && !t.overlaps_nucleus) {
            "0".to_owned()
        } else {
            t.cell_id.clone()
        };
        out.push(
            Transcript {
                row: t.row,
                cell_id,
                overlaps_nucleus: t.overlaps_nucleus,
                feature_name: t.feature_name.clone(),
                x: t.x,
                y: t.y,
            },
        );
        i += 1;
    }
    assert(table@.take(i as int) =~= table@);
    out
}

/// The cell identifiers of a table as they stand.
pub open spec fn own_ids(table: Seq<Transcript>) -> Seq<Seq<char>> {
    Seq::new(table.len(), |i: int| table[i].cell_id@)
}

/// The cell identifiers of a table as they count.
pub open spec fn effective_ids(table: Seq<Transcript>, nucleus_only: bool) -> Seq<Seq<char>> {
    Seq::new(table.len(), |i: int| assigned_id(table[i], nucleus_only))
}

/// Whether every identifier can be decoded.
pub open spec fn all_decode(ids: Seq<Seq<char>>) -> bool {
    forall|i: int| 0 <= i < ids.len() ==> decode(#[trigger] ids[i]) is Ok
}

/// Whether `i` is the first position of an identifier that cannot be decoded.
pub open spec fn first_failure(ids: Seq<Seq<char>>, i: int) -> bool {
    &&& 0 <= i < ids.len()
    &&& decode(ids[i]) is Err
    &&& forall|j: int| 0 <= j < i ==> decode(#[trigger] ids[j]) is Ok
}

/// The table with the identifiers `ids` decoded, where all of them can be.
pub open spec fn decoded_of(table: Seq<Transcript>, ids: Seq<Seq<char>>) -> Seq<
    DecodedTranscript,
> {
    Seq::new(
        table.len(),
        |i: int|
            DecodedTranscript {
                row: table[i].row,
                cell_id: decode(ids[i])->Ok_0,
                overlaps_nucleus: table[i].overlaps_nucleus,
                x: table[i].x,
                y: table[i].y,
            },
    )
}

/// What decoding the identifiers `ids` of `table` comes to: the decoded
/// table where every identifier can be decoded, and else the first row
/// whose identifier cannot, with the cause.
pub open spec fn decoding(
    table: Seq<Transcript>,
    ids: Seq<Seq<char>>,
    outcome: Result<Vec<DecodedTranscript>, TileError>,
) -> bool {
    match outcome {
        Ok(v) => all_decode(ids) && v@ == decoded_of(table, ids),
        Err(e) => exists|i: int|
            #[trigger] first_failure(ids, i) && e == (TileError::Decode {
                row: table[i].row,
                cause: decode(ids[i])->Err_0,
            }),
    }
}

/// Decodes the cell identifier of every row. The first identifier that
/// cannot be decoded ends the work: no row is skipped and none gets a
/// made-up number.
pub fn decode_cells(table: &Vec<Transcript>) -> (outcome: Result<
    Vec<DecodedTranscript>,
    TileError,
>)
    ensures
        decoding(table@, own_ids(table@), outcome),
{
    let ghost ids = own_ids(table@);
    let mut out: Vec<DecodedTranscript> = Vec::new();
    let mut i: usize = 0;
    while i < table.len()
        invariant
            i <= table.len(),
            ids == own_ids(table@),
            out@.len() == i,
            forall|j: int| 0 <= j < i ==> decode(#[trigger] ids[j]) is Ok,
            forall|j: int| 0 <= j < i ==> #[trigger] out@[j] == decoded_of(table@, ids)[j],
        decreases table.len() - i,
    {
        let t = &table[i];
        assert(ids[i as int] == t.cell_id@);
        match decode_cell_id(t.cell_id.as_str()) {
            Ok(cell_id) => {
                out.push(
                    DecodedTranscript {
                        row: t.row,
                        cell_id,
                        overlaps_nucleus: t.overlaps_nucleus,
                        x: t.x,
                        y: t.y,
                    },
                );
            },
            Err(cause) => {
                assert(first_failure(ids, i as int));
                return Err(TileError::Decode { row: t.row, cause });
            },
        }
        i += 1;
    }
    assert(out@ =~= decoded_of(table@, ids));
    Ok(out)
}

/// What a run comes to.
///
/// The configuration is checked first, then the coordinates. Control probes
/// are removed, and what is left must be at least as many rows as one tile
/// must hold. The cell identifiers that count are decoded, the envelope of
/// the table is taken, and the grid of tiles over it is settled.
pub open spec fn run_ensures(
    args: Args,
    table: Seq<Transcript>,
    outcome: Result<Plan, TileError>,
) -> bool {
    let kept = table.filter(retained());
    let ids = effective_ids(kept, args.nucleus_only);
    let decoded = decoded_of(kept, ids);
    let minimal = args.minimal_transcripts as nat;
    if config_verdict(args) is Err {
        outcome is Err && outcome->Err_0 == config_verdict(args)->Err_0
    } else if !table_fits(table) {
        outcome is Err && outcome->Err_0 == TileError::OutOfRange
    } else if kept.len() < minimal {
        outcome is Err && outcome->Err_0 == TileError::TooFewTranscripts
    } else if !all_decode(ids) {
        outcome is Err && exists|i: int|
            #[trigger] first_failure(ids, i) && outcome->Err_0 == (TileError::Decode {
                row: kept[i].row,
                cause: decode(ids[i])->Err_0,
            })
    } else if kept.len() == 0 {
        outcome is Err && outcome->Err_0 == TileError::EmptyDataset
    } else {
        match outcome {
            Ok(plan) => {
                &&& plan.transcripts@ == decoded
                &&& plan.limits.encloses(decoded)
                &&& partitioned(
                    decoded,
                    plan.limits,
                    args.width as int,
                    args.height as int,
                    args.overlap as int,
                    minimal,
                    plan.tiles@,
                )
            },
            Err(e) => {
                &&& e == TileError::SparseTile
                &&& has_sparse_request(
                    decoded,
                    limits_of(decoded),
                    args.width as int,
                    args.height as int,
                    args.overlap as int,
                    minimal,
                )
            },
        }
    }
}

/// Runs the whole pipeline on a table that has been read.
pub fn run(args: &Args, table: &Vec<Transcript>) -> (outcome: Result<Plan, TileError>)
    ensures
        run_ensures(*args, table@, outcome),
{
    match check_config(args) {
        Err(e) => {
            return Err(e);
        },
        Ok(_) => {},
    }
    if !table_is_valid(table) {
        return Err(TileError::OutOfRange);
    }
    let kept = filter_transcripts(table);
    if get_row_count(&kept) < args.minimal_transcripts {
        return Err(TileError::TooFewTranscripts);
    }
    let named = normalize_cell_ids(&kept, args.nucleus_only);
    let ghost ids = effective_ids(kept@, args.nucleus_only);
    assert(own_ids(named@) =~= ids);
    let decoded = match decode_cells(&named) {
        Err(e) => {
            proof {
                let i = choose|i: int|
                    #[trigger] first_failure(ids, i) && e == (TileError::Decode {
                        row: named@[i].row,
                        cause: decode(ids[i])->Err_0,
                    });
                assert(first_failure(ids, i));
                assert(decode(ids[i]) is Err);
            }
            return Err(e);
        },
        Ok(v) => v,
    };
    assert(decoded@ =~= decoded_of(kept@, ids));
    let limits = match get_limits(&decoded) {
        None => {
            return Err(TileError::EmptyDataset);
        },
        Some(b) => b,
    };
    proof {
        lemma_filter_keeps_exactly(table@);
        assert forall|i: int| 0 <= i < decoded@.len() implies (#[trigger] decoded@[i]).x.fits()
            && decoded@[i].y.fits() by {
            assert(kept@[i] == table@[crate::probe::kept_positions(table@)[i]]);
        }
        lemma_bounds_fit(decoded@, limits);
        lemma_limits_of(decoded@, limits);
    }
    match partition(
        &decoded,
        limits,
        args.width,
        args.height,
        args.overlap,
        args.minimal_transcripts,
    ) {
        Err(e) => Err(e),
        Ok(tiles) => Ok(Plan { transcripts: decoded, limits, tiles }),
    }
}

/// Whether two outcomes of a run are the same: the same failure, or the same
/// table, envelope and tiles.
pub open spec fn same_outcome(a: Result<Plan, TileError>, b: Result<Plan, TileError>) -> bool {
    match (a, b) {
        (Ok(p), Ok(q)) => p.transcripts@ == q.transcripts@ && p.limits == q.limits && p.tiles@
            == q.tiles@,
        (Err(e), Err(f)) => e == f,
        _ => false,
    }
}

/// A run on the same configuration and the same table comes to the same.
///
/// Whatever two runs return for one configuration and one table, they
/// return the same failure, or the same decoded table, the same envelope and
/// the same tiles in the same order.
pub proof fn lemma_run_is_repeatable(
    args: Args,
    table: Seq<Transcript>,
    first: Result<Plan, TileError>,
    second: Result<Plan, TileError>,
)
    requires
        run_ensures(args, table, first),
        run_ensures(args, table, second),
    ensures
        same_outcome(first, second),
{
    let kept = table.filter(retained());
    let ids = effective_ids(kept, args.nucleus_only);
    let decoded = decoded_of(kept, ids);
    let minimal = args.minimal_transcripts as nat;
    let w = args.width as int;
    let h = args.height as int;
    let o = args.overlap as int;
    if config_verdict(args) is Err {
    } else if !table_fits(table) {
    } else if kept.len() < minimal {
    } else if !all_decode(ids) {
        let i = choose|i: int|
            #[trigger] first_failure(ids, i) && first->Err_0 == (TileError::Decode {
                row: kept[i].row,
                cause: decode(ids[i])->Err_0,
            });
        let j = choose|j: int|
            #[trigger] first_failure(ids, j) && second->Err_0 == (TileError::Decode {
                row: kept[j].row,
                cause: decode(ids[j])->Err_0,
            });
        if i < j {
            assert(decode(ids[i]) is Ok);
        }
        if j < i {
            assert(decode(ids[j]) is Ok);
        }
    } else if kept.len() == 0 {
    } else {
        match (first, second) {
            (Ok(p), Ok(q)) => {
                lemma_envelope_unique(decoded, p.limits, q.limits);
                assert forall|n: int| 0 <= n < p.tiles@.len() implies p.tiles@[n] == q.tiles@[n] by {
                    lemma_settles_once(
                        decoded,
                        request_number(p.limits, w, h, o, n),
                        o,
                        minimal,
                        p.tiles@[n]@,
                        q.tiles@[n]@,
                    );
                }
                assert(p.tiles@ =~= q.tiles@);
            },
            (Err(e), Err(f)) => {},
            (Ok(p), Err(f)) => {
                lemma_limits_of(decoded, p.limits);
                lemma_no_sparse_request(decoded, p.limits, w, h, o, minimal, p.tiles@);
            },
            (Err(e), Ok(q)) => {
                lemma_limits_of(decoded, q.limits);
                lemma_no_sparse_request(decoded, q.limits, w, h, o, minimal, q.tiles@);
            },
        }
    }
}

} // verus!
