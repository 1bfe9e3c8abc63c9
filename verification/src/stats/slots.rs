//! Rows of `pg_statistic`: a histogram or a list of most common values, and a
//! correlation.

use vstd::prelude::*;
use crate::pg_types::{DEFAULT_COLLATION_OID, INVALID_OID, TEXTOID};
use crate::stats::assoc::Assoc;
use crate::stats::estimates::{is_text_oid, is_text_type};
use crate::stats::values::{
    firsts, frequencies, mcv_freqs, most_common, ordered_mcv, Frequency, Values,
};
use crate::text::{dup_texts, texts};

verus! {

pub const STATISTIC_KIND_MCV: i16 = 1;

pub const STATISTIC_KIND_HISTOGRAM: i16 = 2;

pub const STATISTIC_KIND_CORRELATION: i16 = 3;

/// The strategy number of `<` in a B-tree operator family.
pub const LESS_STRATEGY: i32 = 1;

/// The strategy number of `=` in a B-tree operator family.
pub const EQUAL_STRATEGY: i32 = 3;

/// The most values that a list of most common values gets.
pub const MAX_COMMON_VALUES: usize = 100;

/// Slots of a row of `pg_statistic`.
pub const STATISTIC_SLOTS: usize = 5;

/// Columns of `pg_statistic`.
pub const STATISTIC_COLUMNS: usize = 31;

/// What the first slot of a column's statistics holds.
pub enum Slot1 {
    Histogram { type_oid: u32, bounds: Vec<i64> },
    Mcv { values: Vec<String>, freqs: Vec<Frequency> },
}

pub enum SlotView {
    Histogram { type_oid: u32, bounds: Seq<i64> },
    Mcv { values: Seq<Seq<char>>, freqs: Seq<Frequency> },
}

impl View for Slot1 {
    type V = SlotView;

    open spec fn view(&self) -> SlotView {
        match *self {
            Slot1::Histogram { type_oid, bounds } => SlotView::Histogram {
                type_oid,
                bounds: bounds@,
            },
            Slot1::Mcv { values, freqs } => SlotView::Mcv {
                values: texts(values@),
                freqs: freqs@,
            },
        }
    }
}

pub open spec fn opt_slot(s: Option<Slot1>) -> Option<SlotView> {
    match s {
        Some(v) => Some(v@),
        None => None,
    }
}

/// What is written of a column: a slot, the number of distinct values that goes
/// with it, and the type to which the physical order of the column is true.
pub struct SlotChoice {
    pub slot: Option<Slot1>,
    pub ndistinct: i64,
    pub correlation: Option<u32>,
}

pub struct ChoiceView {
    pub slot: Option<SlotView>,
    pub ndistinct: int,
    pub correlation: Option<u32>,
}

impl View for SlotChoice {
    type V = ChoiceView;

    open spec fn view(&self) -> ChoiceView {
        ChoiceView {
            slot: opt_slot(self.slot),
            ndistinct: self.ndistinct as int,
            correlation: self.correlation,
        }
    }
}

/// What is known of the values of a column.
pub struct KnownView {
    /// Histogram bounds.
    pub bounds: Option<Seq<i64>>,
    /// All of its values.
    pub complete: Option<Seq<Seq<char>>>,
    /// How often each occurs.
    pub counts: Option<Seq<(Seq<char>, i64)>>,
    /// How often the most frequent ones occur.
    pub partial: Option<Seq<(Seq<char>, i64)>>,
}

/// The slot of a column: its histogram; else, for texts, all of its values, if
/// they are known, with a number of distinct values that says that there are no
/// others; else its most frequent values. More than two bounds are only made for
/// a column that is sorted on disk.
pub open spec fn chosen_slot(t: u32, known: KnownView, ndistinct: int, rows: i64) -> ChoiceView {
    match known.bounds {
        Some(b) => ChoiceView {
            slot: Some(SlotView::Histogram { type_oid: t, bounds: b }),
            ndistinct,
            correlation: if b.len() > 2 {
                Some(t)
            } else {
                None
            },
        },
        None => ChoiceView {
            slot: if !is_text_oid(t) {
                None
            } else if known.complete is Some {
                Some(
                    SlotView::Mcv {
                        values: known.complete->0,
                        freqs: frequencies(
                            known.complete->0,
                            match known.counts {
                                Some(c) => c,
                                None => Seq::empty(),
                            },
                            rows,
                        ),
                    },
                )
            } else if known.partial is Some && known.partial->0.len() >= 2 {
                let common = most_common(known.partial->0, MAX_COMMON_VALUES as nat);
                Some(
                    SlotView::Mcv {
                        values: firsts(common),
                        freqs: frequencies(firsts(common), common, rows),
                    },
                )
            } else {
                None
            },
            ndistinct: if is_text_oid(t) && known.complete is Some {
                (#[verifier::truncate]
                (known.complete->0.len() as i64)) as int
            } else {
                ndistinct
            },
            correlation: None,
        },
    }
}

pub open spec fn opt_view<T: View>(t: Option<&T>) -> Option<T::V> {
    match t {
        Some(v) => Some(v@),
        None => None,
    }
}

/// Chooses the slot of a column.
pub fn choose_slot(
    type_oid: u32,
    bounds: Option<Vec<i64>>,
    complete: Option<&Values>,
    counts: Option<&Assoc<i64>>,
    partial: Option<&Assoc<i64>>,
    ndistinct: i64,
    rows: i64,
) -> (r: SlotChoice)
    ensures
        r@ == chosen_slot(
            type_oid,
            (KnownView {
                bounds: match bounds {
                    Some(b) => Some(b@),
                    None => None,
                },
                complete: opt_view(complete),
                counts: opt_view(counts),
                partial: opt_view(partial),
            }),
            ndistinct as int,
            rows,
        ),
{
    match bounds {
        Some(b) => {
            let correlation = if b.len() > 2 {
                Some(type_oid)
            } else {
                None
            };
            return SlotChoice {
                slot: Some(Slot1::Histogram { type_oid, bounds: b }),
                ndistinct,
                correlation,
            };
        },
        None => {},
    }
    if !is_text_type(type_oid) {
        return SlotChoice { slot: None, ndistinct, correlation: None };
    }
    match complete {
        Some(all) => {
            let none: Assoc<i64> = Assoc::new();
            let counts = match counts {
                Some(c) => c,
                None => &none,
            };
            let freqs = mcv_freqs(&all.items, counts, rows);
            assert(all@.len() == all.items@.len());
            let n: i64 = #[verifier::truncate]
            (all.items.len() as i64);
            return SlotChoice {
                slot: Some(Slot1::Mcv { values: dup_texts(&all.items), freqs }),
                ndistinct: n,
                correlation: None,
            };
        },
        None => {},
    }
    match partial {
        Some(c) => {
            assert(c@.len() == c.entries.len());
            if c.entries.len() >= 2 {
                let (values, freqs) = ordered_mcv(c, rows, MAX_COMMON_VALUES);
                return SlotChoice {
                    slot: Some(Slot1::Mcv { values, freqs }),
                    ndistinct,
                    correlation: None,
                };
            }
        },
        None => {},
    }
    SlotChoice { slot: None, ndistinct, correlation: None }
}

/// Where all values of a text column are listed, the number of distinct values
/// says that there are no others.
pub proof fn lemma_complete_list(t: u32, known: KnownView, ndistinct: int, rows: i64)
    requires
        known.bounds is None,
        is_text_oid(t),
        known.complete is Some,
        known.complete->0.len() <= i64::MAX,
    ensures
        ({
            let c = chosen_slot(t, known, ndistinct, rows);
            &&& c.ndistinct == known.complete->0.len()
            &&& c.slot matches Some(SlotView::Mcv { values, freqs })
            &&& c.slot->0->values == known.complete->0
            &&& c.slot->0->freqs.len() == known.complete->0.len()
        }),
{
}

/// A list of the most frequent values alone leaves the number of distinct values
/// as it is.
pub proof fn lemma_partial_list(t: u32, known: KnownView, ndistinct: int, rows: i64)
    requires
        known.complete is None,
    ensures
        chosen_slot(t, known, ndistinct, rows).ndistinct == ndistinct,
{
}

// ---------------------------------------------------------------------------
// Rows
// ---------------------------------------------------------------------------

/// An operator to look up: that of a type with a strategy number.
#[derive(Clone, Copy, Debug, PartialEq, Eq, Structural)]
pub struct OperatorQuery {
    pub type_oid: u32,
    pub strategy: i32,
}

/// What stands in `stanumbers` of a slot.
#[derive(Clone, Copy, Debug, PartialEq, Eq, Structural)]
pub enum SlotNumbers {
    Absent,
    Frequencies,
    Correlation,
}

/// What stands in `stavalues` of a slot.
#[derive(Clone, Copy, Debug, PartialEq, Eq, Structural)]
pub enum SlotValues {
    Absent,
    Bounds,
    Texts,
}

/// A slot of a row of `pg_statistic`.
#[derive(Clone, Copy, Debug, PartialEq, Eq, Structural)]
pub struct SlotData {
    pub stakind: i16,
    pub staop: u32,
    pub stacoll: u32,
    pub numbers: SlotNumbers,
    pub values: SlotValues,
}

/// The operator that a slot needs. A histogram of less than two bounds, and a
/// list of less than two values, is not written.
pub open spec fn operator_of(slot: Option<SlotView>) -> Option<OperatorQuery> {
    match slot {
        Some(SlotView::Histogram { type_oid, bounds }) => if bounds.len() >= 2 {
            Some(OperatorQuery { type_oid, strategy: LESS_STRATEGY })
        } else {
            None
        },
        Some(SlotView::Mcv { values, freqs }) => if values.len() >= 2 {
            Some(OperatorQuery { type_oid: TEXTOID, strategy: EQUAL_STRATEGY })
        } else {
            None
        },
        None => None,
    }
}

/// The operator that has to be looked up for a slot.
pub fn slot_operator(slot: &Option<Slot1>) -> (r: Option<OperatorQuery>)
    ensures
        r == operator_of(opt_slot(*slot)),
{
    match slot {
        Some(Slot1::Histogram { type_oid, bounds }) => if bounds.len() >= 2 {
            Some(OperatorQuery { type_oid: *type_oid, strategy: LESS_STRATEGY })
        } else {
            None
        },
        Some(Slot1::Mcv { values, freqs }) => {
            assert(texts(values@).len() == values@.len());
            if values.len() >= 2 {
                Some(OperatorQuery { type_oid: TEXTOID, strategy: EQUAL_STRATEGY })
            } else {
                None
            }
        },
        None => None,
    }
}

/// The operator that has to be looked up for a correlation.
pub fn correlation_operator(correlation: Option<u32>) -> (r: Option<OperatorQuery>)
    ensures
        r == match correlation {
            Some(t) => Some(OperatorQuery { type_oid: t, strategy: LESS_STRATEGY }),
            None => None,
        },
{
    match correlation {
        Some(t) => Some(OperatorQuery { type_oid: t, strategy: LESS_STRATEGY }),
        None => None,
    }
}

/// The first slot of a row, where its operator exists.
pub open spec fn first_slot(slot: Option<SlotView>, op: u32) -> Seq<SlotData> {
    if operator_of(slot) is None || op == INVALID_OID {
        Seq::empty()
    } else {
        match slot->0 {
            SlotView::Histogram { .. } => seq![
                SlotData {
                    stakind: STATISTIC_KIND_HISTOGRAM,
                    staop: op,
                    stacoll: INVALID_OID,
                    numbers: SlotNumbers::Absent,
                    values: SlotValues::Bounds,
                },
            ],
            SlotView::Mcv { .. } => seq![
                SlotData {
                    stakind: STATISTIC_KIND_MCV,
                    staop: op,
                    stacoll: DEFAULT_COLLATION_OID,
                    numbers: SlotNumbers::Frequencies,
                    values: SlotValues::Texts,
                },
            ],
        }
    }
}

/// The slot of the correlation, where its operator exists.
pub open spec fn correlation_slot(correlation: Option<u32>, op: u32) -> Seq<SlotData> {
    if correlation is None || op == INVALID_OID {
        Seq::empty()
    } else {
        seq![
            SlotData {
                stakind: STATISTIC_KIND_CORRELATION,
                staop: op,
                stacoll: INVALID_OID,
                numbers: SlotNumbers::Correlation,
                values: SlotValues::Absent,
            },
        ]
    }
}

/// The slots of a row, given the operators that were looked up.
pub fn resolve_slots(
    slot: &Option<Slot1>,
    slot_op: u32,
    correlation: Option<u32>,
    correlation_op: u32,
) -> (r: Vec<SlotData>)
    ensures
        r@ == first_slot(opt_slot(*slot), slot_op) + correlation_slot(correlation, correlation_op),
        r@.len() <= 2,
{
    let mut out: Vec<SlotData> = Vec::new();
    let needed = slot_operator(slot);
    if needed.is_some() && slot_op != INVALID_OID {
        match slot {
            Some(Slot1::Histogram { .. }) => {
                out.push(
                    SlotData {
                        stakind: STATISTIC_KIND_HISTOGRAM,
                        staop: slot_op,
                        stacoll: INVALID_OID,
                        numbers: SlotNumbers::Absent,
                        values: SlotValues::Bounds,
                    },
                );
            },
            Some(Slot1::Mcv { .. }) => {
                out.push(
                    SlotData {
                        stakind: STATISTIC_KIND_MCV,
                        staop: slot_op,
                        stacoll: DEFAULT_COLLATION_OID,
                        numbers: SlotNumbers::Frequencies,
                        values: SlotValues::Texts,
                    },
                );
            },
            None => {},
        }
    }
    assert(out@ =~= first_slot(opt_slot(*slot), slot_op));
    if correlation.is_some() && correlation_op != INVALID_OID {
        out.push(
            SlotData {
                stakind: STATISTIC_KIND_CORRELATION,
                staop: correlation_op,
                stacoll: INVALID_OID,
                numbers: SlotNumbers::Correlation,
                values: SlotValues::Absent,
            },
        );
    }
    assert(out@ =~= first_slot(opt_slot(*slot), slot_op) + correlation_slot(
        correlation,
        correlation_op,
    ));
    out
}

/// A value of a row of `pg_statistic`.
#[derive(Clone, Copy, Debug, PartialEq, Eq, Structural)]
pub enum Cell {
    Oid(u32),
    Int2(i16),
    Int4(i32),
    Flag(bool),
    /// The fraction of null values.
    NullFraction,
    /// The number of distinct values.
    Distinct,
    Numbers(SlotNumbers),
    Values(SlotValues),
}

/// A slot that holds nothing.
pub open spec fn empty_slot() -> SlotData {
    SlotData {
        stakind: 0,
        staop: INVALID_OID,
        stacoll: INVALID_OID,
        numbers: SlotNumbers::Absent,
        values: SlotValues::Absent,
    }
}

pub open spec fn slot_at(slots: Seq<SlotData>, k: int) -> SlotData {
    if k < slots.len() {
        slots[k]
    } else {
        empty_slot()
    }
}

/// The value of the column at index `i` of `pg_statistic`: six columns of the
/// whole, then for the five slots their kinds, operators, collations, numbers and
/// values.
pub open spec fn cell(
    attrelid: u32,
    attnum: i16,
    stainherit: bool,
    stawidth: i32,
    slots: Seq<SlotData>,
    i: int,
) -> Cell {
    if i == 0 {
        Cell::Oid(attrelid)
    } else if i == 1 {
        Cell::Int2(attnum)
    } else if i == 2 {
        Cell::Flag(stainherit)
    } else if i == 3 {
        Cell::NullFraction
    } else if i == 4 {
        Cell::Int4(stawidth)
    } else if i == 5 {
        Cell::Distinct
    } else if i < 11 {
        Cell::Int2(slot_at(slots, i - 6).stakind)
    } else if i < 16 {
        Cell::Oid(slot_at(slots, i - 11).staop)
    } else if i < 21 {
        Cell::Oid(slot_at(slots, i - 16).stacoll)
    } else if i < 26 {
        Cell::Numbers(slot_at(slots, i - 21).numbers)
    } else {
        Cell::Values(slot_at(slots, i - 26).values)
    }
}

fn nth_slot(slots: &Vec<SlotData>, k: usize) -> (r: SlotData)
    ensures
        r == slot_at(slots@, k as int),
{
    if k < slots.len() {
        slots[k]
    } else {
        SlotData {
            stakind: 0,
            staop: INVALID_OID,
            stacoll: INVALID_OID,
            numbers: SlotNumbers::Absent,
            values: SlotValues::Absent,
        }
    }
}

/// The values of a row of `pg_statistic`, column by column. Unused slots have
/// kind, operator and collation zero, and neither numbers nor values.
pub fn statistic_row(
    attrelid: u32,
    attnum: i16,
    stainherit: bool,
    stawidth: i32,
    slots: &Vec<SlotData>,
) -> (r: Vec<Cell>)
    ensures
        r@ == Seq::new(
            STATISTIC_COLUMNS as nat,
            |i: int| cell(attrelid, attnum, stainherit, stawidth, slots@, i),
        ),
{
    let mut row: Vec<Cell> = vec![
        Cell::Oid(attrelid),
        Cell::Int2(attnum),
        Cell::Flag(stainherit),
        Cell::NullFraction,
        Cell::Int4(stawidth),
        Cell::Distinct,
    ];
    let ghost want = Seq::new(
        STATISTIC_COLUMNS as nat,
        |i: int| cell(attrelid, attnum, stainherit, stawidth, slots@, i),
    );
    assert(row@ =~= want.subrange(0, 6));
    let mut part: usize = 0;
    while part < 5
        invariant
            part <= 5,
            want == Seq::new(
                STATISTIC_COLUMNS as nat,
                |i: int| cell(attrelid, attnum, stainherit, stawidth, slots@, i),
            ),
            row@ == want.subrange(0, 6 + 5 * part),
        decreases 5 - part,
    {
        let mut k: usize = 0;
        while k < STATISTIC_SLOTS
            invariant
                part < 5,
                k <= STATISTIC_SLOTS,
                want == Seq::new(
                    STATISTIC_COLUMNS as nat,
                    |i: int| cell(attrelid, attnum, stainherit, stawidth, slots@, i),
                ),
                row@ == want.subrange(0, 6 + 5 * part + k),
            decreases STATISTIC_SLOTS - k,
        {
            let s: SlotData = nth_slot(slots, k);
            let c: Cell = if part == 0 {
                Cell::Int2(s.stakind)
            } else if part == 1 {
                Cell::Oid(s.staop)
            } else if part == 2 {
                Cell::Oid(s.stacoll)
            } else if part == 3 {
                Cell::Numbers(s.numbers)
            } else {
                Cell::Values(s.values)
            };
            assert(want[6 + 5 * part + k] == c);
            row.push(c);
            assert(row@ =~= want.subrange(0, 6 + 5 * part + k + 1));
            k += 1;
        }
        part += 1;
    }
    assert(row@ =~= want);
    row
}

} // verus!
