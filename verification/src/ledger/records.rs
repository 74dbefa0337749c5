//! The records that the ledger holds and the rows that its queries return,
//! each with the mathematical value that contracts speak of.

use crate::rank::Ranked;
use crate::text::{
    lemma_str_le_antisymmetric, lemma_str_le_connected, lemma_str_le_reflexive,
    lemma_str_le_transitive, name_le, str_le,
};
use vstd::prelude::*;

verus! {

/// A named place that orders are attributed to.
#[derive(Clone, Debug, PartialEq, Eq)]
pub struct Region {
    pub id: i32,
    pub name: String,
}

/// A region as a mathematical value.
pub struct RegionView {
    pub id: int,
    pub name: Seq<char>,
}

impl View for Region {
    type V = RegionView;

    open spec fn view(&self) -> RegionView {
        RegionView { id: self.id as int, name: self.name@ }
    }
}

impl DeepView for Region {
    type V = RegionView;

    open spec fn deep_view(&self) -> RegionView {
        self@
    }
}

/// A quantity of one gift, attributed to a region by that region's id.
#[derive(Clone, Debug, PartialEq, Eq)]
pub struct Order {
    pub id: i32,
    pub region_id: i32,
    pub gift_name: String,
    pub quantity: i32,
}

/// An order as a mathematical value.
pub struct OrderView {
    pub id: int,
    pub region_id: int,
    pub gift_name: Seq<char>,
    pub quantity: int,
}

impl View for Order {
    type V = OrderView;

    open spec fn view(&self) -> OrderView {
        OrderView {
            id: self.id as int,
            region_id: self.region_id as int,
            gift_name: self.gift_name@,
            quantity: self.quantity as int,
        }
    }
}

impl DeepView for Order {
    type V = OrderView;

    open spec fn deep_view(&self) -> OrderView {
        self@
    }
}

/// A label with the sum of the quantities that were counted under it.
#[derive(Clone, Debug, PartialEq, Eq)]
pub struct Tally {
    pub label: String,
    pub total: i128,
}

/// A tally as a mathematical value.
pub struct TallyView {
    pub label: Seq<char>,
    pub total: int,
}

impl View for Tally {
    type V = TallyView;

    open spec fn view(&self) -> TallyView {
        TallyView { label: self.label@, total: self.total as int }
    }
}

impl DeepView for Tally {
    type V = TallyView;

    open spec fn deep_view(&self) -> TallyView {
        self@
    }
}

/// One row of the totals query: a region name and the quantity ordered
/// under that name.
#[derive(Clone, Debug, PartialEq, Eq)]
pub struct RegionTotal {
    pub region: String,
    pub total: i128,
}

/// A row of the totals query as a mathematical value.
pub struct RegionTotalView {
    pub region: Seq<char>,
    pub total: int,
}

impl View for RegionTotal {
    type V = RegionTotalView;

    open spec fn view(&self) -> RegionTotalView {
        RegionTotalView { region: self.region@, total: self.total as int }
    }
}

impl DeepView for RegionTotal {
    type V = RegionTotalView;

    open spec fn deep_view(&self) -> RegionTotalView {
        self@
    }
}

/// One row of the ranking query: a region name and its best-selling gifts,
/// best first.
#[derive(Clone, Debug, PartialEq, Eq)]
pub struct RegionTopGifts {
    pub region: String,
    pub top_gifts: Vec<String>,
}

/// A row of the ranking query as a mathematical value.
pub struct RegionTopGiftsView {
    pub region: Seq<char>,
    pub top_gifts: Seq<Seq<char>>,
}

impl View for RegionTopGifts {
    type V = RegionTopGiftsView;

    open spec fn view(&self) -> RegionTopGiftsView {
        RegionTopGiftsView { region: self.region@, top_gifts: self.top_gifts.deep_view() }
    }
}

impl DeepView for RegionTopGifts {
    type V = RegionTopGiftsView;

    open spec fn deep_view(&self) -> RegionTopGiftsView {
        self@
    }
}

/// Why the ledger turned a batch away.
#[derive(Clone, Copy, Debug, PartialEq, Eq)]
pub enum LedgerError {
    /// A record of the batch bears an id that the ledger or an earlier
    /// record of the batch already has; the id is given.
    DuplicateKey(i32),
}

/// Regions are listed by name, and regions of one name by id.
impl Ranked for Region {
    type Key = RegionView;

    open spec fn rank_key(&self) -> RegionView {
        self@
    }

    open spec fn key_le(a: RegionView, b: RegionView) -> bool {
        if a.name == b.name {
            a.id <= b.id
        } else {
            str_le(a.name, b.name)
        }
    }

    proof fn lemma_key_le_total(a: RegionView, b: RegionView, c: RegionView) {
        lemma_str_le_reflexive(a.name);
        lemma_str_le_connected(a.name, b.name);
        if str_le(a.name, b.name) && str_le(b.name, a.name) {
            lemma_str_le_antisymmetric(a.name, b.name);
        }
        if str_le(a.name, b.name) && str_le(b.name, c.name) {
            lemma_str_le_transitive(a.name, b.name, c.name);
            if str_le(c.name, a.name) {
                lemma_str_le_antisymmetric(a.name, c.name);
                lemma_str_le_antisymmetric(a.name, b.name);
            }
        }
    }

    fn not_after(&self, other: &Self) -> (r: bool) {
        if self.name == other.name {
            self.id <= other.id
        } else {
            name_le(&self.name, &other.name)
        }
    }
}

/// Tallies are listed from the largest total down, and tallies of one
/// total by label.
impl Ranked for Tally {
    type Key = TallyView;

    open spec fn rank_key(&self) -> TallyView {
        self@
    }

    open spec fn key_le(a: TallyView, b: TallyView) -> bool {
        a.total > b.total || (a.total == b.total && str_le(a.label, b.label))
    }

    proof fn lemma_key_le_total(a: TallyView, b: TallyView, c: TallyView) {
        lemma_str_le_reflexive(a.label);
        lemma_str_le_connected(a.label, b.label);
        if str_le(a.label, b.label) && str_le(b.label, a.label) {
            lemma_str_le_antisymmetric(a.label, b.label);
        }
        if str_le(a.label, b.label) && str_le(b.label, c.label) {
            lemma_str_le_transitive(a.label, b.label, c.label);
        }
    }

    fn not_after(&self, other: &Self) -> (r: bool) {
        self.total > other.total || (self.total == other.total && name_le(
            &self.label,
            &other.label,
        ))
    }
}

/// Rows of the totals query are listed by region name.
impl Ranked for RegionTotal {
    type Key = Seq<char>;

    open spec fn rank_key(&self) -> Seq<char> {
        self.region@
    }

    open spec fn key_le(a: Seq<char>, b: Seq<char>) -> bool {
        str_le(a, b)
    }

    proof fn lemma_key_le_total(a: Seq<char>, b: Seq<char>, c: Seq<char>) {
        lemma_str_le_reflexive(a);
        lemma_str_le_connected(a, b);
        if str_le(a, b) && str_le(b, a) {
            lemma_str_le_antisymmetric(a, b);
        }
        if str_le(a, b) && str_le(b, c) {
            lemma_str_le_transitive(a, b, c);
        }
    }

    fn not_after(&self, other: &Self) -> (r: bool) {
        name_le(&self.region, &other.region)
    }
}

} // verus!
