//! The mapfile model: parsing the line-oriented progress ledger into an
//! immutable model, and iterating that model sector by sector.

use vstd::prelude::*;

use crate::floppy_type::{registry_lookup, FloppyType};
use crate::text::{
    has_prefix, has_prefix_exec, parse_num_spec, parse_number, split_whitespace_chars, str_chars,
    suffix_chars, tokens_of, trim_chars, trim_spec, views_of,
};
use vstd::string::StrSliceExecFns;
use vstd::arithmetic::div_mod::{
    lemma_div_denominator, lemma_div_pos_is_pos, lemma_fundamental_div_mod,
    lemma_fundamental_div_mod_converse, lemma_mod_bound,
};

verus! {

/// The global operation under way, from the mapfile's status line.
#[derive(Clone, Copy, Debug, Eq, PartialEq)]
pub enum Status {
    CopyingNonTriedBlocks,
    TrimmingNonTrimmerBlocks,
    ScrapingNonScrapedBlocks,
    RetryingBadSectors,
    FillingSpecifiedBlocks,
    GeneratingApproximateMapfile,
    Finished,
}

/// Per-range status of one byte-range record.
#[derive(Clone, Copy, Debug, Eq, PartialEq)]
pub enum BlockStatus {
    NonTried,
    NonTrimmed,
    NonScraped,
    BadSector,
    Finished,
}

/// Why a mapfile could not be loaded.
#[derive(Clone, Copy, Debug, Eq, PartialEq)]
pub enum Error {
    /// No non-comment line was found to serve as the status line.
    NoStatusLine,
    /// Neither the caller nor the registry supplied a geometry.
    UnknownFloppyType,
    /// A non-comment line failed token-count, status-code or numeric
    /// validation; carries the 1-based line number.
    InvalidLine(usize),
    /// The underlying line source failed before the text reached the parser.
    Io,
}

/// One byte-range record of the mapfile.
#[derive(Clone, Copy, Debug, Eq, PartialEq)]
pub struct Block {
    pub pos: u64,
    pub size: u64,
    pub status: BlockStatus,
}

impl Block {
    /// Start offset in bytes.
    pub fn pos(&self) -> (r: u64)
        ensures
            r == self.pos,
    {
        self.pos
    }

    /// Length in bytes.
    pub fn size(&self) -> (r: u64)
        ensures
            r == self.size,
    {
        self.size
    }

    /// Status of the whole range.
    pub fn status(&self) -> (r: BlockStatus)
        ensures
            r == self.status,
    {
        self.status
    }
}

/// One physical sector derived from the model: its linear position and
/// index, its geometric coordinates, and the status it inherits from the
/// record that covers it. `sector` is 1-based.
#[derive(Clone, Copy, Debug, Eq, PartialEq)]
pub struct Sector {
    pub pos: u64,
    pub index: u64,
    pub side: u64,
    pub track: u64,
    pub sector: u64,
    pub status: BlockStatus,
}

/// Names the outcome of chrono's datetime parse on a piece of text: whether
/// the text is a valid `%Y-%m-%d %H:%M:%S` timestamp.
pub uninterp spec fn datetime_parses(s: Seq<char>) -> bool;

#[verifier::external_type_specification]
#[verifier::external_body]
pub struct ExNaiveDateTime(chrono::NaiveDateTime);

/// Relies on chrono's `NaiveDateTime::parse_from_str`, which accepts or
/// rejects text as a function of the text alone; the fixed format
/// `%Y-%m-%d %H:%M:%S` must match the whole text, so whether `Some` comes
/// back depends on the text alone.
#[verifier::external_body]
fn parse_naive_datetime(v: &Vec<char>) -> (r: Option<chrono::NaiveDateTime>)
    ensures
        r is Some <==> datetime_parses(v@),
{
    let s: String = v.iter().collect();
    chrono::NaiveDateTime::parse_from_str(&s, "%Y-%m-%d %H:%M:%S").ok()
}

/// The comment prefix that carries the start timestamp.
pub open spec fn start_time_prefix() -> Seq<char> {
    "# Start time:"@
}

/// The comment prefix that carries the current timestamp.
pub open spec fn current_time_prefix() -> Seq<char> {
    "# Current time:"@
}

/// Whether a timestamp field is set after one comment line: it stays set
/// once set, and otherwise becomes set exactly when the line carries the
/// prefix and the trimmed remainder parses as a timestamp.
pub open spec fn comment_sets(was_set: bool, t: Seq<char>, prefix: Seq<char>) -> bool {
    was_set || (has_prefix(t, prefix) && datetime_parses(trim_spec(t.skip(prefix.len() as int))))
}

/// Whether a status-line code token denotes a global status.
pub open spec fn status_code_spec(t: Seq<char>) -> Option<Status> {
    if t.len() != 1 {
        None
    } else if t[0] == '?' {
        Some(Status::CopyingNonTriedBlocks)
    } else if t[0] == '*' {
        Some(Status::TrimmingNonTrimmerBlocks)
    } else if t[0] == '/' {
        Some(Status::ScrapingNonScrapedBlocks)
    } else if t[0] == '-' {
        Some(Status::RetryingBadSectors)
    } else if t[0] == 'F' {
        Some(Status::FillingSpecifiedBlocks)
    } else if t[0] == 'G' {
        Some(Status::GeneratingApproximateMapfile)
    } else if t[0] == '+' {
        Some(Status::Finished)
    } else {
        None
    }
}

/// Whether a record code token denotes a per-range status; `F` and `G` are
/// only valid on the status line and are rejected here.
pub open spec fn block_code_spec(t: Seq<char>) -> Option<BlockStatus> {
    if t.len() != 1 {
        None
    } else if t[0] == '?' {
        Some(BlockStatus::NonTried)
    } else if t[0] == '*' {
        Some(BlockStatus::NonTrimmed)
    } else if t[0] == '/' {
        Some(BlockStatus::NonScraped)
    } else if t[0] == '-' {
        Some(BlockStatus::BadSector)
    } else if t[0] == '+' {
        Some(BlockStatus::Finished)
    } else {
        None
    }
}

fn parse_status_code(t: &Vec<char>) -> (r: Option<Status>)
    ensures
        r == status_code_spec(t@),
{
    if t.len() != 1 {
        return None;
    }
    let c = t[0];
    if c == '?' {
        Some(Status::CopyingNonTriedBlocks)
    } else if c == '*' {
        Some(Status::TrimmingNonTrimmerBlocks)
    } else if c == '/' {
        Some(Status::ScrapingNonScrapedBlocks)
    } else if c == '-' {
        Some(Status::RetryingBadSectors)
    } else if c == 'F' {
        Some(Status::FillingSpecifiedBlocks)
    } else if c == 'G' {
        Some(Status::GeneratingApproximateMapfile)
    } else if c == '+' {
        Some(Status::Finished)
    } else {
        None
    }
}

fn parse_block_code(t: &Vec<char>) -> (r: Option<BlockStatus>)
    ensures
        r == block_code_spec(t@),
{
    if t.len() != 1 {
        return None;
    }
    let c = t[0];
    if c == '?' {
        Some(BlockStatus::NonTried)
    } else if c == '*' {
        Some(BlockStatus::NonTrimmed)
    } else if c == '/' {
        Some(BlockStatus::NonScraped)
    } else if c == '-' {
        Some(BlockStatus::BadSector)
    } else if c == '+' {
        Some(BlockStatus::Finished)
    } else {
        None
    }
}

/// Parser state after some prefix of the input lines.
pub ghost struct ParseState {
    pub start_set: bool,
    pub current_set: bool,
    pub status_line: Option<(u64, Status, u64)>,
    pub total_size: u64,
    pub blocks: Seq<Block>,
}

/// The state before any line is read.
pub open spec fn init_parse_state() -> ParseState {
    ParseState {
        start_set: false,
        current_set: false,
        status_line: None,
        total_size: 0,
        blocks: Seq::empty(),
    }
}

/// One line of the parse, on the 0-based line `idx`: comments may fill the
/// timestamp fields, the first non-comment line is the status line, every
/// later non-comment line is a byte-range record. Every malformed
/// non-comment line — wrong token count, bad code, bad number, or a record
/// that would push the running total past `u64::MAX` — fails with
/// `InvalidLine` carrying the 1-based line number.
pub open spec fn step_line(st: ParseState, line: Seq<char>, idx: int) -> Result<ParseState, Error> {
    let t = trim_spec(line);
    if t.len() > 0 && t[0] == '#' {
        Ok(
            ParseState {
                start_set: comment_sets(st.start_set, t, start_time_prefix()),
                current_set: comment_sets(st.current_set, t, current_time_prefix()),
                ..st
            },
        )
    } else {
        let toks = tokens_of(t);
        if toks.len() != 3 {
            Err(Error::InvalidLine((idx + 1) as usize))
        } else if st.status_line is None {
            match (parse_num_spec(toks[0]), status_code_spec(toks[1]), parse_num_spec(toks[2])) {
                (Some(pos), Some(code), Some(pass)) => Ok(
                    ParseState { status_line: Some((pos, code, pass)), ..st },
                ),
                _ => Err(Error::InvalidLine((idx + 1) as usize)),
            }
        } else {
            match (parse_num_spec(toks[0]), parse_num_spec(toks[1]), block_code_spec(toks[2])) {
                (Some(pos), Some(size), Some(code)) => if st.total_size + size > u64::MAX {
                    Err(Error::InvalidLine((idx + 1) as usize))
                } else {
                    Ok(
                        ParseState {
                            total_size: (st.total_size + size) as u64,
                            blocks: st.blocks.push(Block { pos, size, status: code }),
                            ..st
                        },
                    )
                },
                _ => Err(Error::InvalidLine((idx + 1) as usize)),
            }
        }
    }
}

/// The parse folded over the lines from `i` on.
pub open spec fn parse_from(lines: Seq<Seq<char>>, i: int, st: ParseState) -> Result<
    ParseState,
    Error,
>
    decreases lines.len() - i,
{
    if i < 0 || i >= lines.len() {
        Ok(st)
    } else {
        match step_line(st, lines[i], i) {
            Ok(st2) => parse_from(lines, i + 1, st2),
            Err(e) => Err(e),
        }
    }
}

/// The views of a sequence of lines.
pub open spec fn line_views(lines: Seq<String>) -> Seq<Seq<char>> {
    lines.map_values(|s: String| s@)
}

/// The abstract mapfile model: what a successfully loaded mapfile holds.
pub ghost struct MapModel {
    pub has_start_time: bool,
    pub has_current_time: bool,
    pub current_pos: u64,
    pub status: Status,
    pub pass: u64,
    pub total_size: u64,
    pub blocks: Seq<Block>,
    pub floppy_type: FloppyType,
}

/// Sum of the sizes of the first `j` records.
pub open spec fn prefix_size(blocks: Seq<Block>, j: int) -> int
    decreases j,
{
    if j <= 0 {
        0
    } else {
        prefix_size(blocks, j - 1) + blocks[j - 1].size
    }
}

/// Sum of all record sizes.
pub open spec fn sum_sizes(blocks: Seq<Block>) -> int {
    prefix_size(blocks, blocks.len() as int)
}

impl MapModel {
    /// A model is well formed when its total size is exactly the sum of its
    /// record lengths and its geometry is well formed.
    pub open spec fn wf(self) -> bool {
        self.total_size == sum_sizes(self.blocks) && self.floppy_type.wf()
    }
}

/// The whole parse: fold all lines, then require a status line, then resolve
/// the geometry — the explicit one when given, else the registry entry whose
/// total size matches the accumulated total exactly.
pub open spec fn spec_parse(lines: Seq<Seq<char>>, explicit: Option<FloppyType>) -> Result<
    MapModel,
    Error,
> {
    match parse_from(lines, 0, init_parse_state()) {
        Err(e) => Err(e),
        Ok(st) => match st.status_line {
            None => Err(Error::NoStatusLine),
            Some((pos, code, pass)) => {
                let g = if explicit is Some {
                    explicit
                } else {
                    registry_lookup(st.total_size)
                };
                match g {
                    None => Err(Error::UnknownFloppyType),
                    Some(ft) => Ok(
                        MapModel {
                            has_start_time: st.start_set,
                            has_current_time: st.current_set,
                            current_pos: pos,
                            status: code,
                            pass: pass,
                            total_size: st.total_size,
                            blocks: st.blocks,
                            floppy_type: ft,
                        },
                    ),
                }
            },
        },
    }
}

proof fn lemma_prefix_size_push(blocks: Seq<Block>, b: Block, j: int)
    requires
        0 <= j <= blocks.len(),
    ensures
        prefix_size(blocks.push(b), j) == prefix_size(blocks, j),
    decreases j,
{
    if j > 0 {
        lemma_prefix_size_push(blocks, b, j - 1);
        assert(blocks.push(b)[j - 1] == blocks[j - 1]);
    }
}

proof fn lemma_step_total(st: ParseState, line: Seq<char>, idx: int)
    requires
        st.total_size == sum_sizes(st.blocks),
        step_line(st, line, idx) is Ok,
    ensures
        step_line(st, line, idx)->Ok_0.total_size == sum_sizes(step_line(st, line, idx)->Ok_0.blocks),
{
    let st2 = step_line(st, line, idx)->Ok_0;
    if st2.blocks != st.blocks {
        let b = st2.blocks.last();
        lemma_prefix_size_push(st.blocks, b, st.blocks.len() as int);
    }
}

proof fn lemma_parse_total(lines: Seq<Seq<char>>, i: int, st: ParseState)
    requires
        st.total_size == sum_sizes(st.blocks),
        parse_from(lines, i, st) is Ok,
    ensures
        parse_from(lines, i, st)->Ok_0.total_size == sum_sizes(parse_from(lines, i, st)->Ok_0.blocks),
    decreases lines.len() - i,
{
    if 0 <= i < lines.len() {
        let r = step_line(st, lines[i], i);
        match r {
            Ok(st2) => {
                lemma_step_total(st, lines[i], i);
                lemma_parse_total(lines, i + 1, st2);
            },
            Err(_) => {},
        }
    }
}

/// The parsed, immutable mapfile model.
#[derive(Debug)]
pub struct MapFile {
    start_time: Option<chrono::NaiveDateTime>,
    current_time: Option<chrono::NaiveDateTime>,
    current_pos: u64,
    status: Status,
    pass: u64,
    total_size: u64,
    blocks: Vec<Block>,
    floppy_type: FloppyType,
}

impl View for MapFile {
    type V = MapModel;

    closed spec fn view(&self) -> MapModel {
        MapModel {
            has_start_time: self.start_time is Some,
            has_current_time: self.current_time is Some,
            current_pos: self.current_pos,
            status: self.status,
            pass: self.pass,
            total_size: self.total_size,
            blocks: self.blocks@,
            floppy_type: self.floppy_type,
        }
    }
}

impl MapFile {
    /// Parses the mapfile text, given as its lines, into a model, exactly as
    /// `spec_parse` describes: the result's total size is the sum of all
    /// record lengths, and when no explicit geometry is supplied the
    /// resolved geometry's total size equals that sum.
    pub fn load(lines: &Vec<String>, floppy_type: Option<FloppyType>) -> (r: Result<MapFile, Error>)
        requires
            floppy_type is Some ==> floppy_type->0.wf(),
        ensures
            ({
                let sr = spec_parse(line_views(lines@), floppy_type);
                match r {
                    Ok(m) => sr is Ok && m@ == sr->Ok_0 && m@.wf(),
                    Err(e) => sr is Err && e == sr->Err_0,
                }
            }),
            floppy_type is None && r is Ok ==> r->Ok_0@.floppy_type.total_size
                == r->Ok_0@.total_size,
    {
        let ghost lviews = line_views(lines@);
        let mut start_time: Option<chrono::NaiveDateTime> = None;
        let mut current_time: Option<chrono::NaiveDateTime> = None;
        let mut status_line: Option<(u64, Status, u64)> = None;
        let mut total_size: u64 = 0;
        let mut blocks: Vec<Block> = Vec::new();
        let n = lines.len();
        let mut i: usize = 0;
        while i < n
            invariant
                n == lines@.len(),
                0 <= i <= n,
                lviews == line_views(lines@),
                parse_from(lviews, 0, init_parse_state()) == parse_from(
                    lviews,
                    i as int,
                    ParseState {
                        start_set: start_time is Some,
                        current_set: current_time is Some,
                        status_line: status_line,
                        total_size: total_size,
                        blocks: blocks@,
                    },
                ),
            decreases n - i,
        {
            let ghost st0 = ParseState {
                start_set: start_time is Some,
                current_set: current_time is Some,
                status_line: status_line,
                total_size: total_size,
                blocks: blocks@,
            };
            let chars = str_chars(lines[i].as_str());
            proof {
                assert(lviews[i as int] == lines@[i as int]@);
            }
            let t = trim_chars(&chars);
            if t.len() > 0 && t[0] == '#' {
                if start_time.is_none() && has_prefix_exec(&t, "# Start time:") {
                    let plen = "# Start time:".unicode_len();
                    let tail = suffix_chars(&t, plen);
                    let rest = trim_chars(&tail);
                    start_time = parse_naive_datetime(&rest);
                }
                if current_time.is_none() && has_prefix_exec(&t, "# Current time:") {
                    let plen = "# Current time:".unicode_len();
                    let tail = suffix_chars(&t, plen);
                    let rest = trim_chars(&tail);
                    current_time = parse_naive_datetime(&rest);
                }
                proof {
                    assert(step_line(st0, lviews[i as int], i as int) == Ok::<ParseState, Error>(
                        ParseState {
                            start_set: start_time is Some,
                            current_set: current_time is Some,
                            ..st0
                        },
                    ));
                }
            } else {
                let toks = split_whitespace_chars(&t);
                proof {
                    assert(views_of(toks@) == tokens_of(trim_spec(lviews[i as int])));
                }
                if toks.len() != 3 {
                    proof {
                        assert(step_line(st0, lviews[i as int], i as int) == Err::<
                            ParseState,
                            Error,
                        >(Error::InvalidLine((i + 1) as usize)));
                    }
                    return Err(Error::InvalidLine(i + 1));
                }
                proof {
                    assert(views_of(toks@)[0] == toks@[0]@);
                    assert(views_of(toks@)[1] == toks@[1]@);
                    assert(views_of(toks@)[2] == toks@[2]@);
                }
                if status_line.is_none() {
                    let pos = match parse_number(&toks[0]) {
                        Some(v) => v,
                        None => {
                            return Err(Error::InvalidLine(i + 1));
                        },
                    };
                    let code = match parse_status_code(&toks[1]) {
                        Some(v) => v,
                        None => {
                            return Err(Error::InvalidLine(i + 1));
                        },
                    };
                    let pass = match parse_number(&toks[2]) {
                        Some(v) => v,
                        None => {
                            return Err(Error::InvalidLine(i + 1));
                        },
                    };
                    status_line = Some((pos, code, pass));
                } else {
                    let bpos = match parse_number(&toks[0]) {
                        Some(v) => v,
                        None => {
                            return Err(Error::InvalidLine(i + 1));
                        },
                    };
                    let bsize = match parse_number(&toks[1]) {
                        Some(v) => v,
                        None => {
                            return Err(Error::InvalidLine(i + 1));
                        },
                    };
                    let bcode = match parse_block_code(&toks[2]) {
                        Some(v) => v,
                        None => {
                            return Err(Error::InvalidLine(i + 1));
                        },
                    };
                    total_size = match total_size.checked_add(bsize) {
                        Some(v) => v,
                        None => {
                            return Err(Error::InvalidLine(i + 1));
                        },
                    };
                    blocks.push(Block { pos: bpos, size: bsize, status: bcode });
                }
            }
            i += 1;
        }
        let ghost stf = ParseState {
            start_set: start_time is Some,
            current_set: current_time is Some,
            status_line: status_line,
            total_size: total_size,
            blocks: blocks@,
        };
        proof {
            assert(parse_from(lviews, 0, init_parse_state()) == Ok::<ParseState, Error>(stf));
            lemma_parse_total(lviews, 0, init_parse_state());
        }
        let (current_pos, status, pass) = match status_line {
            Some(tr) => tr,
            None => {
                return Err(Error::NoStatusLine);
            },
        };
        let ft = match floppy_type {
            Some(f) => f,
            None => match FloppyType::find_by_total_size(total_size) {
                Some(f) => f,
                None => {
                    return Err(Error::UnknownFloppyType);
                },
            },
        };
        Ok(
            MapFile {
                start_time,
                current_time,
                current_pos,
                status,
                pass,
                total_size,
                blocks,
                floppy_type: ft,
            },
        )
    }

    /// The start timestamp, when one was parsed from the comments.
    pub fn start_time(&self) -> (r: Option<chrono::NaiveDateTime>)
        ensures
            r is Some <==> self@.has_start_time,
    {
        self.start_time
    }

    /// The current timestamp, when one was parsed from the comments.
    pub fn current_time(&self) -> (r: Option<chrono::NaiveDateTime>)
        ensures
            r is Some <==> self@.has_current_time,
    {
        self.current_time
    }

    /// Current position from the status line.
    pub fn current_pos(&self) -> (r: u64)
        ensures
            r == self@.current_pos,
    {
        self.current_pos
    }

    /// Global status from the status line.
    pub fn status(&self) -> (r: Status)
        ensures
            r == self@.status,
    {
        self.status
    }

    /// Pass counter from the status line.
    pub fn pass(&self) -> (r: u64)
        ensures
            r == self@.pass,
    {
        self.pass
    }

    /// Total size in bytes: the sum of all record lengths.
    pub fn total_size(&self) -> (r: u64)
        ensures
            r == self@.total_size,
    {
        self.total_size
    }

    /// The resolved geometry.
    pub fn floppy_type(&self) -> (r: &FloppyType)
        ensures
            *r == self@.floppy_type,
    {
        &self.floppy_type
    }
}

/// The abstract cursor state of a sector iteration.
pub ghost struct SectorsView {
    pub map: MapModel,
    pub block: int,
    pub index: u64,
    pub side: u64,
    pub track: u64,
    pub sector: u64,
}

/// Which sector of its track (0-based) linear sector `i` is.
pub open spec fn sector_of(i: int, ft: FloppyType) -> int {
    i % (ft.sectors as int)
}

/// Which track of its side linear sector `i` is on.
pub open spec fn track_of(i: int, ft: FloppyType) -> int {
    (i / (ft.sectors as int)) % (ft.tracks as int)
}

/// Which side linear sector `i` is on.
pub open spec fn side_of(i: int, ft: FloppyType) -> int {
    i / (ft.sectors as int * ft.tracks as int)
}

/// Whether record `b` covers linear byte position `pos`.
pub open spec fn covers(b: Block, pos: u64) -> bool {
    b.pos <= pos < b.pos + b.size
}

/// Index of the first record at or after `j` that covers `pos`; the record
/// count when none does.
pub open spec fn find_covering(blocks: Seq<Block>, j: int, pos: u64) -> int
    decreases blocks.len() - j,
{
    if j < 0 || j >= blocks.len() {
        blocks.len() as int
    } else if covers(blocks[j], pos) {
        j
    } else {
        find_covering(blocks, j + 1, pos)
    }
}

impl SectorsView {
    /// The cursor is well formed: the geometry is well formed, the record
    /// cursor is in range, and the geometric counters are exactly the
    /// coordinates of the linear index.
    pub open spec fn wf(self) -> bool {
        let ft = self.map.floppy_type;
        &&& ft.wf()
        &&& 0 <= self.block <= self.map.blocks.len()
        &&& self.sector as int == sector_of(self.index as int, ft)
        &&& self.track as int == track_of(self.index as int, ft)
        &&& self.side as int == side_of(self.index as int, ft)
    }

    /// The cursor has passed only records that end at or before the current
    /// linear byte position.
    pub open spec fn in_sync(self) -> bool {
        forall|j: int|
            0 <= j < self.block ==> #[trigger] prefix_size(self.map.blocks, j + 1) <= self.index
                * self.map.floppy_type.sector_size
    }
}

/// The cursor state of a freshly created iterator.
pub open spec fn init_sectors_view(m: MapModel) -> SectorsView {
    SectorsView { map: m, block: 0, index: 0, side: 0, track: 0, sector: 0 }
}

/// One advancement of the sector cursor: the deterministic function that
/// `Sectors::next` realizes. The cursor only ever moves forward; a sector
/// is emitted when a record covers the current position, with its 1-based
/// sector number and the covering record's status; the counters then roll
/// over track and side boundaries.
pub open spec fn step(v: SectorsView) -> (Option<Sector>, SectorsView) {
    let ft = v.map.floppy_type;
    let blocks = v.map.blocks;
    if v.index * ft.sector_size > u64::MAX {
        (None, v)
    } else {
        let pos = (v.index * ft.sector_size) as u64;
        let k = find_covering(blocks, v.block, pos);
        if k == blocks.len() {
            (None, SectorsView { block: blocks.len() as int, ..v })
        } else {
            let sec = Sector {
                pos,
                index: v.index,
                side: v.side,
                track: v.track,
                sector: (v.sector + 1) as u64,
                status: blocks[k].status,
            };
            if v.index == u64::MAX {
                (Some(sec), SectorsView { block: blocks.len() as int, ..v })
            } else {
                let wrap_sector = v.sector + 1 == ft.sectors;
                let wrap_track = wrap_sector && v.track + 1 == ft.tracks;
                (
                    Some(sec),
                    SectorsView {
                        map: v.map,
                        block: k,
                        index: (v.index + 1) as u64,
                        sector: if wrap_sector {
                            0
                        } else {
                            (v.sector + 1) as u64
                        },
                        track: if wrap_track {
                            0
                        } else if wrap_sector {
                            (v.track + 1) as u64
                        } else {
                            v.track
                        },
                        side: if wrap_track {
                            (v.side + 1) as u64
                        } else {
                            v.side
                        },
                    },
                )
            }
        }
    }
}

/// Exact count of sectors the model spans: the total size divided by the
/// sector size, rounded up.
pub open spec fn total_sector_count(m: MapModel) -> int {
    (m.total_size + m.floppy_type.sector_size - 1) / (m.floppy_type.sector_size as int)
}

/// Geometry rollover, the mapping law of linear indices to coordinates:
/// within a track only the sector number advances; after the last sector of
/// a track comes sector 0 of the next track of the same side; and after the
/// last sector of the last track of a side comes sector 0 of track 0 of the
/// next side.
pub proof fn lemma_geometry_rollover(i: int, ft: FloppyType)
    requires
        ft.wf(),
        0 <= i,
    ensures
        0 <= sector_of(i, ft) < ft.sectors as int,
        0 <= track_of(i, ft) < ft.tracks as int,
        0 <= side_of(i, ft) <= i,
        sector_of(i, ft) + 1 < ft.sectors as int ==> sector_of(i + 1, ft) == sector_of(i, ft) + 1
            && track_of(i + 1, ft) == track_of(i, ft) && side_of(i + 1, ft) == side_of(i, ft),
        sector_of(i, ft) + 1 == ft.sectors as int && track_of(i, ft) + 1 < ft.tracks as int
            ==> sector_of(i + 1, ft) == 0 && track_of(i + 1, ft) == track_of(i, ft) + 1
            && side_of(i + 1, ft) == side_of(i, ft),
        sector_of(i, ft) + 1 == ft.sectors as int && track_of(i, ft) + 1 == ft.tracks as int
            ==> sector_of(i + 1, ft) == 0 && track_of(i + 1, ft) == 0 && side_of(i + 1, ft)
            == side_of(i, ft) + 1,
{
    let spt = ft.sectors as int;
    let trk = ft.tracks as int;
    let q = i / spt;
    let r = i % spt;
    lemma_mod_bound(i, spt);
    lemma_div_pos_is_pos(i, spt);
    lemma_fundamental_div_mod(i, spt);
    let q2 = q / trk;
    let t = q % trk;
    lemma_mod_bound(q, trk);
    lemma_div_pos_is_pos(q, trk);
    lemma_fundamental_div_mod(q, trk);
    lemma_div_denominator(i, spt, trk);
    lemma_div_le_self(i, spt * trk);
    assert(spt * trk >= 1) by (nonlinear_arith)
        requires
            spt >= 1,
            trk >= 1,
    ;
    if r + 1 < spt {
        lemma_fundamental_div_mod_converse(i + 1, spt, q, r + 1);
        lemma_div_denominator(i + 1, spt, trk);
    } else {
        assert(i + 1 == (q + 1) * spt + 0) by (nonlinear_arith)
            requires
                i == spt * q + r,
                r + 1 == spt,
        ;
        lemma_fundamental_div_mod_converse(i + 1, spt, q + 1, 0);
        lemma_div_denominator(i + 1, spt, trk);
        if t + 1 < trk {
            lemma_fundamental_div_mod_converse(q + 1, trk, q2, t + 1);
        } else {
            assert(q + 1 == (q2 + 1) * trk + 0) by (nonlinear_arith)
                requires
                    q == trk * q2 + t,
                    t + 1 == trk,
            ;
            lemma_fundamental_div_mod_converse(q + 1, trk, q2 + 1, 0);
        }
    }
}

proof fn lemma_div_le_self(x: int, d: int)
    requires
        0 <= x,
        1 <= d,
    ensures
        0 <= x / d <= x,
{
    lemma_div_pos_is_pos(x, d);
    lemma_fundamental_div_mod(x, d);
    lemma_mod_bound(x, d);
    assert(d * (x / d) >= x / d) by (nonlinear_arith)
        requires
            d >= 1,
            x / d >= 0,
    ;
}

/// The lazy, restartable sequence of derived sectors over one model: a
/// read-only borrow of the model and a private cursor.
pub struct Sectors<'a> {
    map: &'a MapFile,
    block: usize,
    index: u64,
    side: u64,
    track: u64,
    sector: u64,
}

impl<'a> View for Sectors<'a> {
    type V = SectorsView;

    closed spec fn view(&self) -> SectorsView {
        SectorsView {
            map: self.map@,
            block: self.block as int,
            index: self.index,
            side: self.side,
            track: self.track,
            sector: self.sector,
        }
    }
}

impl MapFile {
    /// A fresh sector iterator over this model. Every fresh iterator starts
    /// from the same cursor state, so independently created iterators
    /// replay identical sequences (`lemma_iteration_repeatable`).
    pub fn sectors(&self) -> (r: Sectors<'_>)
        ensures
            r@ == init_sectors_view(self@),
            self@.floppy_type.wf() ==> r@.wf(),
            r@.in_sync(),
    {
        let r = Sectors { map: self, block: 0, index: 0, side: 0, track: 0, sector: 0 };
        proof {
            if self@.floppy_type.wf() {
                lemma_init_view_wf(self@);
            }
        }
        r
    }
}

impl<'a> Sectors<'a> {
    /// Advances by one sector, exactly as the deterministic `step` of the
    /// current abstract state: the result and the new state are functions
    /// of the model and the cursor alone.
    pub fn next(&mut self) -> (r: Option<Sector>)
        requires
            old(self)@.wf(),
        ensures
            final(self)@.wf(),
            r == step(old(self)@).0,
            final(self)@ == step(old(self)@).1,
    {
        let ghost v0 = self@;
        let ss = self.map.floppy_type.sector_size;
        let pos = match self.index.checked_mul(ss) {
            Some(p) => p,
            None => {
                return None;
            },
        };
        let nblocks = self.map.blocks.len();
        #[verifier::loop_isolation(false)]
        while self.block < nblocks
            invariant
                v0.wf(),
                nblocks == v0.map.blocks.len(),
                self@.map == v0.map,
                self.index == v0.index,
                self.side == v0.side,
                self.track == v0.track,
                self.sector == v0.sector,
                v0.block <= self.block as int <= nblocks as int,
                pos as int == v0.index * v0.map.floppy_type.sector_size,
                find_covering(v0.map.blocks, v0.block, pos) == find_covering(
                    v0.map.blocks,
                    self.block as int,
                    pos,
                ),
            decreases nblocks - self.block,
        {
            let b = self.map.blocks[self.block];
            if b.pos <= pos && pos - b.pos < b.size {
                proof {
                    assert(covers(b, pos));
                    assert(find_covering(v0.map.blocks, v0.block, pos) == self.block as int);
                    lemma_geometry_rollover(v0.index as int, v0.map.floppy_type);
                }
                let r = Some(
                    Sector {
                        pos,
                        index: self.index,
                        side: self.side,
                        track: self.track,
                        sector: self.sector + 1,
                        status: b.status,
                    },
                );
                if self.index == u64::MAX {
                    self.block = nblocks;
                    return r;
                }
                let fts = self.map.floppy_type.sectors;
                let ftt = self.map.floppy_type.tracks;
                self.sector = self.sector + 1;
                if self.sector == fts {
                    self.sector = 0;
                    self.track = self.track + 1;
                    if self.track == ftt {
                        self.track = 0;
                        self.side = self.side + 1;
                    }
                }
                self.index = self.index + 1;
                return r;
            }
            self.block = self.block + 1;
        }
        None
    }

    /// The exact number of sectors still to be spanned: the model's total
    /// sector count less the sectors already passed. Running past the
    /// numeric limits of this computation is a caller's contract violation,
    /// not a runtime case: no real floppy geometry approaches them.
    pub fn size_hint(&self) -> (r: (usize, Option<usize>))
        requires
            self@.wf(),
            self@.index <= total_sector_count(self@.map),
            total_sector_count(self@.map) - self@.index <= usize::MAX,
        ensures
            r.0 == total_sector_count(self@.map) - self@.index,
            r.1 == Some(r.0),
    {
        proof {
            lemma_ceil_facts(self@.map);
        }
        let ss = self.map.floppy_type.sector_size;
        let total = self.map.total_size;
        let extra: u64 = if total % ss != 0 {
            1
        } else {
            0
        };
        let ts = total / ss + extra;
        let hint = (ts - self.index) as usize;
        (hint, Some(hint))
    }
}

/// Records tile the address space exactly: each starts where the previous
/// one ended, the first at offset 0, and together they span `[0, total)`.
pub open spec fn tiles(blocks: Seq<Block>, total: int) -> bool {
    &&& forall|j: int|
        0 <= j < blocks.len() ==> (#[trigger] blocks[j]).pos == prefix_size(blocks, j)
    &&& sum_sizes(blocks) == total
}

proof fn lemma_prefix_monotone(blocks: Seq<Block>, a: int, b: int)
    requires
        0 <= a <= b <= blocks.len(),
    ensures
        prefix_size(blocks, a) <= prefix_size(blocks, b),
    decreases b,
{
    if a < b {
        lemma_prefix_monotone(blocks, a, b - 1);
    }
}

proof fn lemma_find_covering_tiled(blocks: Seq<Block>, j: int, pos: u64, total: int)
    requires
        tiles(blocks, total),
        0 <= j <= blocks.len(),
        prefix_size(blocks, j) <= pos as int,
        (pos as int) < total,
    ensures
        ({
            let k = find_covering(blocks, j, pos);
            &&& j <= k < blocks.len()
            &&& covers(blocks[k], pos)
            &&& forall|j2: int| j <= j2 < k ==> #[trigger] prefix_size(blocks, j2 + 1) <= pos as int
        }),
    decreases blocks.len() - j,
{
    if j == blocks.len() {
        assert(prefix_size(blocks, j) == total);
        assert(false);
    } else {
        assert(blocks[j].pos == prefix_size(blocks, j));
        if covers(blocks[j], pos) {
        } else {
            assert(prefix_size(blocks, j + 1) == prefix_size(blocks, j) + blocks[j].size);
            lemma_find_covering_tiled(blocks, j + 1, pos, total);
        }
    }
}

proof fn lemma_find_covering_past(blocks: Seq<Block>, j: int, pos: u64, total: int)
    requires
        tiles(blocks, total),
        0 <= j <= blocks.len(),
        pos as int >= total,
    ensures
        find_covering(blocks, j, pos) == blocks.len(),
    decreases blocks.len() - j,
{
    if j < blocks.len() {
        lemma_prefix_monotone(blocks, j + 1, blocks.len() as int);
        assert(blocks[j].pos == prefix_size(blocks, j));
        assert(prefix_size(blocks, j + 1) == prefix_size(blocks, j) + blocks[j].size);
        lemma_find_covering_past(blocks, j + 1, pos, total);
    }
}

proof fn lemma_ceil_facts(m: MapModel)
    requires
        m.floppy_type.wf(),
    ensures
        ({
            let ss = m.floppy_type.sector_size as int;
            let total = m.total_size as int;
            let n = total_sector_count(m);
            &&& 0 <= n <= u64::MAX
            &&& n * ss >= total
            &&& n == total / ss + (if total % ss == 0 {
                0int
            } else {
                1int
            })
            &&& n > 0 ==> (n - 1) * ss < total
        }),
{
    let ss = m.floppy_type.sector_size as int;
    let total = m.total_size as int;
    let n = total_sector_count(m);
    let q = total / ss;
    let r = total % ss;
    lemma_fundamental_div_mod(total, ss);
    lemma_mod_bound(total, ss);
    lemma_div_pos_is_pos(total, ss);
    lemma_div_le_self(total, ss);
    if r == 0 {
        lemma_fundamental_div_mod_converse(total + ss - 1, ss, q, ss - 1);
        assert(n == q);
        assert(n * ss == total) by (nonlinear_arith)
            requires
                total == ss * q + 0,
                n == q,
        ;
        if n > 0 {
            assert((n - 1) * ss == total - ss) by (nonlinear_arith)
                requires
                    n * ss == total,
                    n == q,
                    total == ss * q,
            ;
        }
    } else {
        assert(total + ss - 1 == (q + 1) * ss + (r - 1)) by (nonlinear_arith)
            requires
                total == ss * q + r,
        ;
        lemma_fundamental_div_mod_converse(total + ss - 1, ss, q + 1, r - 1);
        assert(n == q + 1);
        assert(n * ss == total - r + ss && (n - 1) * ss == total - r) by (nonlinear_arith)
            requires
                total == ss * q + r,
                n == q + 1,
        ;
        assert(q < u64::MAX) by (nonlinear_arith)
            requires
                total == ss * q + r,
                0 < r < ss,
                q >= 0,
                total <= u64::MAX,
        ;
    }
}

/// Emission count law: over a model whose records exactly tile
/// `[0, total_size)`, one step of a well-formed, in-sync iterator emits a
/// sector exactly when fewer than `ceil(total_size / sector_size)` sectors
/// have been emitted so far, and keeps the iterator well formed and in
/// sync. A full run from a fresh iterator therefore emits exactly
/// `ceil(total_size / sector_size)` sectors, and the remaining count that
/// `size_hint` reports equals the number of emissions still to come at
/// every step.
pub proof fn lemma_emission_count(v: SectorsView)
    requires
        v.wf(),
        v.in_sync(),
        tiles(v.map.blocks, v.map.total_size as int),
        v.index <= total_sector_count(v.map),
    ensures
        step(v).0 is Some <==> v.index < total_sector_count(v.map),
        step(v).1.wf(),
        step(v).1.in_sync(),
        step(v).1.map == v.map,
        step(v).1.index <= total_sector_count(v.map),
        step(v).0 is Some ==> step(v).1.index == v.index + 1,
        step(v).0 is None ==> step(v).1.index == v.index,
{
    let ft = v.map.floppy_type;
    let ss = ft.sector_size as int;
    let total = v.map.total_size as int;
    let blocks = v.map.blocks;
    let n = total_sector_count(v.map);
    let i = v.index as int;
    lemma_ceil_facts(v.map);
    if i < n {
        assert(i * ss <= (n - 1) * ss) by (nonlinear_arith)
            requires
                i <= n - 1,
                ss >= 0,
        ;
        assert(i * ss < total);
        assert(0 <= i * ss) by (nonlinear_arith)
            requires
                i >= 0,
                ss >= 0,
        ;
        let pos = (i * ss) as u64;
        if v.block > 0 {
            assert(prefix_size(blocks, (v.block - 1) + 1) <= pos as int);
        }
        lemma_find_covering_tiled(blocks, v.block, pos, total);
        let k = find_covering(blocks, v.block, pos);
        assert(step(v).0 is Some);
        lemma_geometry_rollover(i, ft);
        assert(i < u64::MAX);
        assert(i * ss <= (i + 1) * ss) by (nonlinear_arith)
            requires
                ss >= 0,
        ;
        let v2 = step(v).1;
        assert forall|j: int| 0 <= j < v2.block implies #[trigger] prefix_size(blocks, j + 1)
            <= v2.index * ss by {
            if j < v.block {
                assert(prefix_size(blocks, j + 1) <= v.index * ss);
            } else {
                assert(prefix_size(blocks, j + 1) <= pos as int);
            }
        }
        assert(v2.in_sync());
        assert(v2.wf());
    } else {
        assert(i * ss >= n * ss) by (nonlinear_arith)
            requires
                i >= n,
                ss >= 0,
        ;
        assert(i * ss >= total);
        if i * ss > u64::MAX {
            assert(step(v).0 is None);
        } else {
            let pos = (i * ss) as u64;
            lemma_find_covering_past(blocks, v.block, pos, total);
            assert(step(v).0 is None);
            let v2 = step(v).1;
            assert forall|j: int| 0 <= j < v2.block implies #[trigger] prefix_size(blocks, j + 1)
                <= v2.index * ss by {
                lemma_prefix_monotone(blocks, j + 1, blocks.len() as int);
            }
            assert(v2.in_sync());
        }
    }
}

/// The first `n` results of stepping the cursor from `v`.
pub open spec fn outputs(v: SectorsView, n: nat) -> Seq<Option<Sector>>
    decreases n,
{
    if n == 0 {
        Seq::empty()
    } else {
        seq![step(v).0] + outputs(step(v).1, (n - 1) as nat)
    }
}

/// Iteration is repeatable: two independently created iterators over the
/// same model begin in the same cursor state, and `Sectors::next` realizes
/// the deterministic `step` of that state alone, so they replay the very
/// same output sequence, of any length.
pub proof fn lemma_iteration_repeatable(m: MapModel, a: SectorsView, b: SectorsView, n: nat)
    requires
        a == init_sectors_view(m),
        b == init_sectors_view(m),
    ensures
        outputs(a, n) == outputs(b, n),
{
}

proof fn lemma_init_view_wf(m: MapModel)
    requires
        m.floppy_type.wf(),
    ensures
        init_sectors_view(m).wf(),
        init_sectors_view(m).in_sync(),
{
    let ft = m.floppy_type;
    let spt = ft.sectors as int;
    let trk = ft.tracks as int;
    assert(spt * trk >= 1) by (nonlinear_arith)
        requires
            spt >= 1,
            trk >= 1,
    ;
    lemma_fundamental_div_mod_converse(0, spt, 0, 0);
    lemma_fundamental_div_mod_converse(0, trk, 0, 0);
    lemma_fundamental_div_mod_converse(0, spt * trk, 0, 0);
}

/// The cursor state after `n` advancements from `v`.
pub open spec fn state_after(v: SectorsView, n: nat) -> SectorsView
    decreases n,
{
    if n == 0 {
        v
    } else {
        step(state_after(v, (n - 1) as nat)).1
    }
}

proof fn lemma_state_after_shift(v: SectorsView, j: nat)
    ensures
        state_after(step(v).1, j) == state_after(v, j + 1),
    decreases j,
{
    if j == 0 {
        assert(state_after(v, 1) == step(state_after(v, 0)).1);
    } else {
        lemma_state_after_shift(v, (j - 1) as nat);
        assert(state_after(step(v).1, j) == step(state_after(step(v).1, (j - 1) as nat)).1);
        assert(state_after(v, j + 1) == step(state_after(v, (j + 1 - 1) as nat)).1);
    }
}

proof fn lemma_outputs_len(v: SectorsView, n: nat)
    ensures
        outputs(v, n).len() == n,
    decreases n,
{
    if n > 0 {
        lemma_outputs_len(step(v).1, (n - 1) as nat);
    }
}

proof fn lemma_outputs_index(v: SectorsView, n: nat, k: nat)
    requires
        k < n,
    ensures
        outputs(v, n)[k as int] == step(state_after(v, k)).0,
    decreases n,
{
    lemma_outputs_len(step(v).1, (n - 1) as nat);
    if k == 0 {
        assert(outputs(v, n)[0] == seq![step(v).0][0]);
    } else {
        lemma_outputs_index(step(v).1, (n - 1) as nat, (k - 1) as nat);
        lemma_state_after_shift(v, (k - 1) as nat);
        assert(outputs(v, n)[k as int] == outputs(step(v).1, (n - 1) as nat)[k - 1]);
    }
}

proof fn lemma_state_after_props(m: MapModel, k: nat)
    requires
        m.floppy_type.wf(),
        tiles(m.blocks, m.total_size as int),
    ensures
        ({
            let s = state_after(init_sectors_view(m), k);
            &&& s.wf()
            &&& s.in_sync()
            &&& s.map == m
            &&& s.index == if k <= total_sector_count(m) {
                k as int
            } else {
                total_sector_count(m)
            }
        }),
    decreases k,
{
    if k == 0 {
        lemma_init_view_wf(m);
        lemma_ceil_facts(m);
    } else {
        lemma_state_after_props(m, (k - 1) as nat);
        lemma_emission_count(state_after(init_sectors_view(m), (k - 1) as nat));
    }
}

/// Emission count over a whole run: from a fresh iterator over a model
/// whose records exactly tile `[0, total_size)`, the k-th advancement emits
/// a sector exactly when `k < ceil(total_size / sector_size)`, so the run
/// emits exactly that many sectors before the sequence ends; and after `k`
/// emissions the cursor's linear index is `k`, so the remaining count that
/// `size_hint` reports equals the number of emissions still to come.
pub proof fn lemma_run_emission_count(m: MapModel, n: nat, k: nat)
    requires
        m.floppy_type.wf(),
        tiles(m.blocks, m.total_size as int),
        k < n,
    ensures
        outputs(init_sectors_view(m), n)[k as int] is Some <==> k < total_sector_count(m),
{
    lemma_outputs_index(init_sectors_view(m), n, k);
    lemma_state_after_props(m, k);
    lemma_emission_count(state_after(init_sectors_view(m), k));
}

} // verus!
