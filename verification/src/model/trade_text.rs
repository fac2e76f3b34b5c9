//! Trades as lines of text, and a log of trades as a list of lines.
//!
//! A trade is one line:
//! `[2020-01-01 00:00:00+00:00] 1000.0 USD => 10.0 BTC (USD=1.0, BTC=100.0, Exchange_1)`.
//! The lines that follow it and begin with `--- ` are its notes.

use vstd::prelude::*;

use crate::decimal::{amount_of_text, parse_amount};
use crate::model::trade::{well_formed_amounts, Trade};
use crate::utils::pattern::{captures, group_views, regex_groups};
use crate::utils::time_utils::{datetime_from_str, parsed_instant, Timestamp};

verus! {

/// The pattern of a trade line. Its groups, in order: the date and time,
/// volume and currency given, volume and currency taken, then each currency
/// again with its price, and the exchange.
pub const TRADE_PATTERN: &'static str =
    r"^\[(?P<datetime>.+)\] (?P<volume_from>\S+) (?P<currency_from>\w+) => (?P<volume_to>\S+) (?P<currency_to>\w+) \((?P<currency_from_2>\w+)=(?P<currency_from_price_usd>\S+), (?P<currency_to_2>\w+)=(?P<currency_to_price_usd>\S+), (?P<exchange_name>\w+)\)$";

/// Number of groups of a match of [`TRADE_PATTERN`], the whole match
/// included.
pub const TRADE_GROUPS: usize = 11;

/// Why a line is not a trade.
#[derive(Clone, Copy, Debug, PartialEq, Eq, Structural)]
pub enum TradeParseError {
    /// The line does not have the form of a trade line.
    NoMatch,
    BadDatetime,
    BadVolumeFrom,
    BadVolumeTo,
    /// The currency given is not the one that the first price is for.
    CurrencyFromMismatch,
    BadPriceFrom,
    /// The currency taken is not the one that the second price is for.
    CurrencyToMismatch,
    BadPriceTo,
    /// A volume or price is zero, or a side is worth more than the limit.
    NotWellFormed,
}

/// All groups of a trade line are there.
pub open spec fn complete(groups: Seq<Option<Seq<char>>>) -> bool {
    &&& groups.len() == TRADE_GROUPS
    &&& forall|i: int| 0 <= i < groups.len() ==> (#[trigger] groups[i]) is Some
}

/// Why the groups of a line give no trade, if they give none. The first
/// fault in the order of the line's fields counts.
pub open spec fn fault_of(groups: Seq<Option<Seq<char>>>) -> Option<TradeParseError> {
    if !complete(groups) {
        Some(TradeParseError::NoMatch)
    } else if parsed_instant(groups[1]->0) is None {
        Some(TradeParseError::BadDatetime)
    } else if amount_of_text(groups[2]->0) is None {
        Some(TradeParseError::BadVolumeFrom)
    } else if amount_of_text(groups[4]->0) is None {
        Some(TradeParseError::BadVolumeTo)
    } else if groups[3]->0 != groups[6]->0 {
        Some(TradeParseError::CurrencyFromMismatch)
    } else if amount_of_text(groups[7]->0) is None {
        Some(TradeParseError::BadPriceFrom)
    } else if groups[5]->0 != groups[8]->0 {
        Some(TradeParseError::CurrencyToMismatch)
    } else if amount_of_text(groups[9]->0) is None {
        Some(TradeParseError::BadPriceTo)
    } else if !well_formed_amounts(
        amount_of_text(groups[2]->0)->0,
        amount_of_text(groups[7]->0)->0,
        amount_of_text(groups[4]->0)->0,
        amount_of_text(groups[9]->0)->0,
    ) {
        Some(TradeParseError::NotWellFormed)
    } else {
        None
    }
}

/// Each field of `trade` is what its group reads as.
pub open spec fn reads_fields(trade: Trade, groups: Seq<Option<Seq<char>>>) -> bool {
    &&& parsed_instant(groups[1]->0) == Some(trade.datetime.millis as int)
    &&& amount_of_text(groups[2]->0) == Some(trade.volume_from as int)
    &&& trade.currency_from@ == groups[3]->0
    &&& amount_of_text(groups[4]->0) == Some(trade.volume_to as int)
    &&& trade.currency_to@ == groups[5]->0
    &&& amount_of_text(groups[7]->0) == Some(trade.currency_from_price_usd as int)
    &&& amount_of_text(groups[9]->0) == Some(trade.currency_to_price_usd as int)
    &&& trade.exchange_name@ == groups[10]->0
}

/// `trade` is the trade that the groups of a line give: each field is what
/// its group reads as, and there are no notes.
pub open spec fn reads_as(trade: Trade, groups: Seq<Option<Seq<char>>>) -> bool {
    reads_fields(trade, groups) && trade.notes@.len() == 0
}

/// `result` is what the groups of a line give: the trade that they read as,
/// or their fault.
pub open spec fn is_trade_of(
    result: Result<Trade, TradeParseError>,
    groups: Seq<Option<Seq<char>>>,
) -> bool {
    match result {
        Ok(trade) => fault_of(groups) is None && reads_as(trade, groups) && trade.well_formed(),
        Err(fault) => fault_of(groups) == Some(fault),
    }
}

/// `result` is what a line gives.
pub open spec fn is_parse_of(result: Result<Trade, TradeParseError>, line: Seq<char>) -> bool {
    match regex_groups(TRADE_PATTERN@, line) {
        Some(groups) => is_trade_of(result, groups),
        None => result == Err::<Trade, TradeParseError>(TradeParseError::NoMatch),
    }
}

/// The text of group `i`, if it is there.
fn group_text(groups: &Vec<Option<String>>, i: usize) -> (text: Option<&String>)
    requires
        i < groups@.len(),
    ensures
        match text {
            Some(text) => group_views(groups@)[i as int] == Some(text@),
            None => group_views(groups@)[i as int] is None,
        },
{
    match &groups[i] {
        Some(text) => Some(text),
        None => None,
    }
}

/// Whether every group is there.
fn is_complete(groups: &Vec<Option<String>>) -> (all: bool)
    ensures
        all == complete(group_views(groups@)),
{
    if groups.len() != TRADE_GROUPS {
        return false;
    }
    let mut i: usize = 0;
    while i < groups.len()
        invariant
            i <= groups.len(),
            groups.len() == TRADE_GROUPS,
            forall|k: int| 0 <= k < i ==> (#[trigger] group_views(groups@)[k]) is Some,
        decreases groups.len() - i,
    {
        if group_text(groups, i).is_none() {
            return false;
        }
        i += 1;
    }
    true
}

impl Trade {
    /// Makes a trade of the groups that a line matched.
    pub fn from_groups(groups: &Vec<Option<String>>) -> (result: Result<Trade, TradeParseError>)
        ensures
            is_trade_of(result, group_views(groups@)),
    {
        if !is_complete(groups) {
            return Err(TradeParseError::NoMatch);
        }
        let ghost views = group_views(groups@);
        assert(forall|i: int| 0 <= i < 11 ==> (#[trigger] views[i]) is Some);
        let datetime = match datetime_from_str(group_text(groups, 1).unwrap().as_str()) {
            Ok(at) => at,
            Err(_) => { return Err(TradeParseError::BadDatetime); },
        };
        let volume_from = match parse_amount(group_text(groups, 2).unwrap().as_str()) {
            Some(amount) => amount,
            None => { return Err(TradeParseError::BadVolumeFrom); },
        };
        let currency_from = group_text(groups, 3).unwrap();
        let volume_to = match parse_amount(group_text(groups, 4).unwrap().as_str()) {
            Some(amount) => amount,
            None => { return Err(TradeParseError::BadVolumeTo); },
        };
        let currency_to = group_text(groups, 5).unwrap();
        if !(*currency_from == *group_text(groups, 6).unwrap()) {
            return Err(TradeParseError::CurrencyFromMismatch);
        }
        let currency_from_price_usd = match parse_amount(
            group_text(groups, 7).unwrap().as_str(),
        ) {
            Some(amount) => amount,
            None => { return Err(TradeParseError::BadPriceFrom); },
        };
        if !(*currency_to == *group_text(groups, 8).unwrap()) {
            return Err(TradeParseError::CurrencyToMismatch);
        }
        let currency_to_price_usd = match parse_amount(group_text(groups, 9).unwrap().as_str()) {
            Some(amount) => amount,
            None => { return Err(TradeParseError::BadPriceTo); },
        };
        let trade = Trade {
            datetime,
            exchange_name: group_text(groups, 10).unwrap().clone(),
            volume_from,
            currency_from: currency_from.clone(),
            currency_from_price_usd,
            volume_to,
            currency_to: currency_to.clone(),
            currency_to_price_usd,
            notes: Vec::new(),
        };
        if !trade.is_well_formed() {
            return Err(TradeParseError::NotWellFormed);
        }
        Ok(trade)
    }

    /// Reads a trade from its line.
    pub fn parse(line: &str) -> (result: Result<Trade, TradeParseError>)
        ensures
            is_parse_of(result, line@),
    {
        match captures(TRADE_PATTERN, line) {
            Some(groups) => Trade::from_groups(&groups),
            None => Err(TradeParseError::NoMatch),
        }
    }
}

/// A line that begins with `--- ` is a note.
pub open spec fn is_note(line: Seq<char>) -> bool {
    line.len() >= 4 && line[0] == '-' && line[1] == '-' && line[2] == '-' && line[3] == ' '
}

/// Line `i` begins a record: it is the first line, or it is no note.
pub open spec fn is_head(lines: Seq<Seq<char>>, i: int) -> bool {
    0 <= i < lines.len() && (i == 0 || !is_note(lines[i]))
}

/// The text of a note: the line without its first four characters.
pub fn strip_note(line: &str) -> (note: Option<String>)
    ensures
        match note {
            Some(text) => is_note(line@) && text@ == line@.skip(4),
            None => !is_note(line@),
        },
{
    let mut text = String::new();
    let mut seen: usize = 0;
    let mut marked = true;
    for c in it: line.chars()
        invariant
            it.seq() == line@,
            seen == if it.index() < 4 {
                it.index()
            } else {
                4
            },
            marked <==> (seen < 1 || line@[0] == '-') && (seen < 2 || line@[1] == '-') && (seen < 3
                || line@[2] == '-') && (seen < 4 || line@[3] == ' '),
            it.index() <= 4 ==> text@.len() == 0,
            it.index() >= 4 ==> text@ == line@.subrange(4, it.index() as int),
    {
        if seen < 4 {
            let expected = if seen == 3 {
                ' '
            } else {
                '-'
            };
            if c != expected {
                marked = false;
            }
            seen = seen + 1;
            assert(it.index() + 1 >= 4 ==> text@ =~= line@.subrange(4, it.index() + 1));
        } else {
            text.push(c);
            assert(text@ =~= line@.subrange(4, it.index() + 1));
        }
    }
    if seen == 4 && marked {
        assert(text@ =~= line@.skip(4));
        Some(text)
    } else {
        None
    }
}

/// Why a log could not be read: the fault of one of its lines.
#[derive(Clone, Copy, Debug, PartialEq, Eq, Structural)]
pub struct LoadError {
    pub line: usize,
    pub fault: TradeParseError,
}

/// `notes` are the texts of the notes that stand in the lines from line
/// `first` on, one per line.
pub open spec fn are_notes(notes: Seq<String>, lines: Seq<Seq<char>>, first: int) -> bool {
    forall|k: int|
        0 <= k < notes.len() ==> is_note(#[trigger] lines[first + k]) && notes[k]@ == lines[first
            + k].skip(4)
}

/// `trade` is the record that begins at line `head` and ends before line
/// `end`: the head line gives its fields, the lines after it are its notes.
pub open spec fn is_record(trade: Trade, lines: Seq<Seq<char>>, head: int, end: int) -> bool {
    &&& 0 <= head < end <= lines.len()
    &&& regex_groups(TRADE_PATTERN@, lines[head]) is Some
    &&& fault_of(regex_groups(TRADE_PATTERN@, lines[head])->0) is None
    &&& reads_fields(trade, regex_groups(TRADE_PATTERN@, lines[head])->0)
    &&& trade.well_formed()
    &&& trade.notes@.len() == end - head - 1
    &&& are_notes(trade.notes@, lines, head + 1)
}

/// `trades` are the records of the first `end` lines, which begin at the
/// lines `heads`: every line that begins a record is among them, in rising
/// order, and the record of each ends where the next begins.
pub open spec fn are_records(
    trades: Seq<Trade>,
    heads: Seq<int>,
    lines: Seq<Seq<char>>,
    end: int,
) -> bool {
    &&& trades.len() == heads.len()
    &&& forall|k: int| 0 <= k < heads.len() ==> is_head(lines, #[trigger] heads[k])
    &&& forall|i: int| 0 <= i < end && is_head(lines, i) ==> heads.contains(i)
    &&& forall|k: int|
        0 <= k < heads.len() ==> is_record(
            #[trigger] trades[k],
            lines,
            heads[k],
            if k + 1 < heads.len() {
                heads[k + 1]
            } else {
                end
            },
        )
}

/// `trades` are the records of all the lines.
pub open spec fn loads_all(trades: Seq<Trade>, lines: Seq<Seq<char>>) -> bool {
    exists|heads: Seq<int>| are_records(trades, heads, lines, lines.len() as int)
}

/// The line `error.line` begins a record and is no trade, for the reason
/// `error.fault`, and the lines before it hold good records.
pub open spec fn stops_at(error: LoadError, lines: Seq<Seq<char>>) -> bool {
    &&& is_head(lines, error.line as int)
    &&& is_parse_of(Err::<Trade, TradeParseError>(error.fault), lines[error.line as int])
    &&& exists|trades: Seq<Trade>, heads: Seq<int>|
        are_records(trades, heads, lines, error.line as int)
}

/// `result` is what the lines of a log give: its records, or the first
/// line that begins a record and is no trade, with its fault.
pub open spec fn is_load_of(result: Result<Vec<Trade>, LoadError>, lines: Seq<Seq<char>>) -> bool {
    match result {
        Ok(trades) => loads_all(trades@, lines),
        Err(error) => stops_at(error, lines),
    }
}

/// Notes with the note of the next line are the notes of one more line.
proof fn lemma_notes_with_note(notes: Seq<String>, note: String, lines: Seq<Seq<char>>, first: int)
    requires
        are_notes(notes, lines, first),
        0 <= first,
        first + notes.len() < lines.len(),
        is_note(lines[first + notes.len()]),
        note@ == lines[first + notes.len()].skip(4),
    ensures
        are_notes(notes.push(note), lines, first),
{
    let more = notes.push(note);
    assert forall|k: int| 0 <= k < more.len() implies is_note(#[trigger] lines[first + k])
        && more[k]@ == lines[first + k].skip(4) by {
        if k < notes.len() {
            assert(more[k] == notes[k]);
        }
    }
}

/// Reads the trades of a log from its lines.
pub fn load_trades(lines: &Vec<String>) -> (result: Result<Vec<Trade>, LoadError>)
    ensures
        is_load_of(result, crate::utils::views(lines@)),
{
    let ghost texts = crate::utils::views(lines@);
    let mut trades: Vec<Trade> = Vec::new();
    let ghost mut heads: Seq<int> = Seq::empty();
    let mut i: usize = 0;
    while i < lines.len()
        invariant
            i <= lines.len(),
            texts == crate::utils::views(lines@),
            are_records(trades@, heads, texts, i as int),
            i < lines.len() ==> is_head(texts, i as int),
        decreases lines.len() - i,
    {
        let head = i;
        assert(texts[i as int] == lines@[i as int]@);
        let mut trade = match Trade::parse(lines[i].as_str()) {
            Ok(trade) => trade,
            Err(fault) => {
                let error = LoadError { line: i, fault };
                assert(stops_at(error, texts)) by {
                    assert(are_records(trades@, heads, texts, error.line as int));
                }
                return Err(error);
            },
        };
        i += 1;
        let ghost fields = regex_groups(TRADE_PATTERN@, texts[head as int])->0;
        while i < lines.len()
            invariant
                head < i <= lines.len(),
                texts == crate::utils::views(lines@),
                fields == regex_groups(TRADE_PATTERN@, texts[head as int])->0,
                is_record(trade, texts, head as int, i as int),
            ensures
                head < i <= lines.len(),
                is_record(trade, texts, head as int, i as int),
                i < lines.len() ==> is_head(texts, i as int),
            decreases lines.len() - i,
        {
            assert(texts[i as int] == lines@[i as int]@);
            match strip_note(lines[i].as_str()) {
                Some(note) => {
                    let ghost bare = trade;
                    trade.notes.push(note);
                    proof {
                        lemma_notes_with_note(bare.notes@, note, texts, head + 1);
                    }
                    i += 1;
                },
                None => {
                    break ;
                },
            }
        }
        proof {
            let earlier = trades@;
            let more = earlier.push(trade);
            let grown = heads.push(head as int);
            assert forall|k: int| 0 <= k < grown.len() implies is_head(
                texts,
                #[trigger] grown[k],
            ) by {
                if k < heads.len() {
                    assert(grown[k] == heads[k]);
                }
            }
            assert forall|x: int| 0 <= x < i && is_head(texts, x) implies grown.contains(x) by {
                if x < head {
                    assert(heads.contains(x));
                    let k = choose|k: int| 0 <= k < heads.len() && heads[k] == x;
                    assert(grown[k] == x);
                } else if x == head {
                    assert(grown[heads.len() as int] == x);
                } else {
                    let k = x - head - 1;
                    assert(is_note(texts[head + 1 + k]));
                }
            }
            assert forall|k: int| 0 <= k < grown.len() implies is_record(
                #[trigger] more[k],
                texts,
                grown[k],
                if k + 1 < grown.len() {
                    grown[k + 1]
                } else {
                    i as int
                },
            ) by {
                if k < heads.len() {
                    assert(more[k] == earlier[k]);
                    assert(grown[k] == heads[k]);
                    assert(is_record(
                        earlier[k],
                        texts,
                        heads[k],
                        if k + 1 < heads.len() {
                            heads[k + 1]
                        } else {
                            head as int
                        },
                    ));
                }
            }
            heads = grown;
        }
        trades.push(trade);
    }
    assert(texts.len() == lines@.len());
    assert(loads_all(trades@, texts)) by {
        assert(are_records(trades@, heads, texts, texts.len() as int));
    }
    Ok(trades)
}

} // verus!
