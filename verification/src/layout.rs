use vstd::prelude::*;

verus! {

/// A column width rule, as a terminal table layout takes it.
#[derive(Debug, Clone, Copy, PartialEq, Eq, Structural)]
pub enum ColumnConstraint {
    Min(u16),
    Max(u16),
    Length(u16),
    Percentage(u16),
    Ratio(u32, u32),
    Fill(u16),
}

/// Where a price lies relative to the best bid and ask.
#[derive(Debug, Clone, Copy, PartialEq, Eq, Structural)]
pub enum PriceRegion {
    BidRegion,
    AskRegion,
    SpreadRegion,
    Invalid,
}

/// Summary of a layout.
#[derive(Debug, Clone, Copy, PartialEq, Eq, Structural)]
pub struct LayoutStats {
    pub total_columns: usize,
    pub total_fixed_width: u16,
    pub merged_column_width: u16,
    pub merged_column_enabled: bool,
}

/// Sum of the fixed lengths among `cs`.
pub open spec fn fixed_width(cs: Seq<ColumnConstraint>) -> nat
    decreases cs.len(),
{
    if cs.len() == 0 {
        0
    } else {
        fixed_width(cs.drop_last()) + match cs.last() {
            ColumnConstraint::Length(w) => w as nat,
            _ => 0nat,
        }
    }
}

/// Price, quantity, buy and sell columns.
pub open spec fn four_columns() -> Seq<ColumnConstraint> {
    seq![ColumnConstraint::Length(8), ColumnConstraint::Percentage(70), ColumnConstraint::Length(12), ColumnConstraint::Length(12)]
}

/// Price column and one merged bid and ask column taking the rest.
pub open spec fn two_columns() -> Seq<ColumnConstraint> {
    seq![ColumnConstraint::Length(8), ColumnConstraint::Percentage(100)]
}

fn four_column_widths() -> (r: Vec<ColumnConstraint>)
    ensures
        r@ == four_columns(),
{
    let r = vec![ColumnConstraint::Length(8), ColumnConstraint::Percentage(70), ColumnConstraint::Length(12), ColumnConstraint::Length(12)];
    proof {
        assert(r@ =~= four_columns());
    }
    r
}

fn two_column_widths() -> (r: Vec<ColumnConstraint>)
    ensures
        r@ == two_columns(),
{
    let r = vec![ColumnConstraint::Length(8), ColumnConstraint::Percentage(100)];
    proof {
        assert(r@ =~= two_columns());
    }
    r
}

/// Column layout of the order book table.
pub struct LayoutManager {
    column_widths: Vec<ColumnConstraint>,
    show_merged_column: bool,
    show_order_flow: bool,
    cell_width: u16,
}

impl LayoutManager {
    /// The column rules.
    pub closed spec fn columns(&self) -> Seq<ColumnConstraint> {
        self.column_widths@
    }

    /// Whether the bid and ask column is merged.
    pub closed spec fn merged(&self) -> bool {
        self.show_merged_column
    }

    /// Whether the order flow columns are shown.
    pub closed spec fn order_flow(&self) -> bool {
        self.show_order_flow
    }

    /// Width of the merged column.
    pub closed spec fn merged_width(&self) -> u16 {
        self.cell_width
    }

    /// Four columns with order flow, merged column 60 wide.
    pub fn new() -> (r: Self)
        ensures
            r.columns() == four_columns(),
            r.merged(),
            r.order_flow(),
            r.merged_width() == 60,
    {
        LayoutManager { column_widths: four_column_widths(), show_merged_column: true, show_order_flow: true, cell_width: 60 }
    }

    /// A layout with the given merged width and switches: four columns with order
    /// flow, else two when the merged column is on, else the default columns.
    pub fn with_config(cell_width: u16, show_merged_column: bool, show_order_flow: bool) -> (r: Self)
        ensures
            r.columns() == (if show_order_flow { four_columns() } else if show_merged_column { two_columns() } else { four_columns() }),
            r.merged() == show_merged_column,
            r.order_flow() == show_order_flow,
            r.merged_width() == cell_width,
    {
        let mut manager = Self::new();
        manager.cell_width = cell_width;
        manager.show_merged_column = show_merged_column;
        manager.show_order_flow = show_order_flow;
        if show_order_flow {
            manager.column_widths = four_column_widths();
        } else if show_merged_column {
            manager.column_widths = two_column_widths();
        }
        manager
    }

    /// The column rules.
    pub fn get_column_constraints(&self) -> (r: &Vec<ColumnConstraint>)
        ensures
            r@ == self.columns(),
    {
        &self.column_widths
    }

    /// Titles of the header row: four with order flow, else price and merged bid and ask.
    pub fn header_titles(&self) -> (r: Vec<String>)
        ensures
            self.order_flow() ==> r@.len() == 4 && r@[0]@ == "Price"@ && r@[1]@ == "Quantity"@ && r@[2]@ == "Buy"@ && r@[3]@ == "Sell"@,
            !self.order_flow() ==> r@.len() == 2 && r@[0]@ == "Price"@ && r@[1]@ == "Bid & Ask"@,
    {
        let mut r: Vec<String> = Vec::new();
        r.push(String::from_str("Price"));
        if self.show_order_flow {
            r.push(String::from_str("Quantity"));
            r.push(String::from_str("Buy"));
            r.push(String::from_str("Sell"));
        } else {
            r.push(String::from_str("Bid & Ask"));
        }
        r
    }

    /// Texts of a placeholder row: `message` in the price column, the other cells empty.
    pub fn empty_row_texts(&self, message: &str) -> (r: Vec<String>)
        ensures
            r@.len() == (if self.order_flow() { 4int } else { 2int }),
            r@[0]@ == message@,
            forall|i: int| 1 <= i < r@.len() ==> (#[trigger] r@[i])@ == Seq::<char>::empty(),
    {
        let mut r: Vec<String> = Vec::new();
        r.push(String::from_str(message));
        let cells: usize = if self.show_order_flow { 3 } else { 1 };
        let mut i: usize = 0;
        while i < cells
            invariant
                0 <= i <= cells,
                r@.len() == 1 + i,
                r@[0]@ == message@,
                forall|j: int| 1 <= j < r@.len() ==> (#[trigger] r@[j])@ == Seq::<char>::empty(),
            decreases cells - i,
        {
            r.push(String::new());
            i = i + 1;
        }
        r
    }

    /// Lengths of the rule drawn in each column of a separator row.
    pub fn separator_lengths(&self) -> (r: Vec<usize>)
        ensures
            self.order_flow() ==> r@ == seq![6usize, 15, 10, 10],
            !self.order_flow() ==> r@ == seq![6usize, 30],
    {
        let r = if self.show_order_flow { vec![6, 15, 10, 10] } else { vec![6, 30] };
        proof {
            if self.show_order_flow {
                assert(r@ =~= seq![6usize, 15, 10, 10]);
            } else {
                assert(r@ =~= seq![6usize, 30]);
            }
        }
        r
    }

    /// Replaces the column rules.
    pub fn set_column_widths(&mut self, widths: Vec<ColumnConstraint>)
        ensures
            final(self).columns() == widths@,
            final(self).merged() == old(self).merged(),
            final(self).order_flow() == old(self).order_flow(),
            final(self).merged_width() == old(self).merged_width(),
    {
        self.column_widths = widths;
    }

    /// Sets the merged column width; with the merged column on and more than two
    /// columns, the third column becomes that fixed length.
    pub fn set_merged_column_width(&mut self, width: u16)
        ensures
            final(self).merged_width() == width,
            final(self).columns() == (if old(self).merged() && old(self).columns().len() > 2 {
                old(self).columns().update(2, ColumnConstraint::Length(width))
            } else {
                old(self).columns()
            }),
            final(self).merged() == old(self).merged(),
            final(self).order_flow() == old(self).order_flow(),
    {
        self.cell_width = width;
        if self.show_merged_column && self.column_widths.len() > 2 {
            self.column_widths.set(2, ColumnConstraint::Length(width));
        }
    }

    /// Turns the merged column on or off.
    pub fn set_show_merged_column(&mut self, show: bool)
        ensures
            final(self).merged() == show,
            final(self).columns() == old(self).columns(),
            final(self).order_flow() == old(self).order_flow(),
            final(self).merged_width() == old(self).merged_width(),
    {
        self.show_merged_column = show;
    }

    /// Turns the order flow columns on or off: on gives four columns; off gives two when
    /// the merged column is on and leaves the columns otherwise.
    pub fn set_show_order_flow(&mut self, show: bool)
        ensures
            final(self).order_flow() == show,
            final(self).columns() == (if show { four_columns() } else if old(self).merged() { two_columns() } else { old(self).columns() }),
            final(self).merged() == old(self).merged(),
            final(self).merged_width() == old(self).merged_width(),
    {
        self.show_order_flow = show;
        if show {
            self.column_widths = four_column_widths();
        } else if self.show_merged_column {
            self.column_widths = two_column_widths();
        }
    }

    /// Whether the order flow columns are shown.
    pub fn is_order_flow_enabled(&self) -> (r: bool)
        ensures
            r == self.order_flow(),
    {
        self.show_order_flow
    }

    /// Width of the merged column.
    pub fn get_merged_column_width(&self) -> (r: u16)
        ensures
            r == self.merged_width(),
    {
        self.cell_width
    }

    /// Whether the bid and ask column is merged.
    pub fn is_merged_column_enabled(&self) -> (r: bool)
        ensures
            r == self.merged(),
    {
        self.show_merged_column
    }

    /// Column rules for a table `total_width` wide: with order flow, four columns,
    /// compact below 120; without, two columns with a narrower price column below 80.
    pub fn calculate_optimal_widths(&self, total_width: u16) -> (r: Vec<ColumnConstraint>)
        ensures
            r@ == (if self.order_flow() {
                if total_width < 120 {
                    seq![ColumnConstraint::Length(6), ColumnConstraint::Percentage(35), ColumnConstraint::Percentage(32), ColumnConstraint::Percentage(33)]
                } else {
                    four_columns()
                }
            } else {
                if total_width < 80 {
                    seq![ColumnConstraint::Length(6), ColumnConstraint::Percentage(100)]
                } else {
                    two_columns()
                }
            }),
    {
        if self.show_order_flow {
            if total_width < 120 {
                let r = vec![ColumnConstraint::Length(6), ColumnConstraint::Percentage(35), ColumnConstraint::Percentage(32), ColumnConstraint::Percentage(33)];
                proof {
                    assert(r@ =~= seq![ColumnConstraint::Length(6), ColumnConstraint::Percentage(35), ColumnConstraint::Percentage(32), ColumnConstraint::Percentage(33)]);
                }
                r
            } else {
                four_column_widths()
            }
        } else {
            if total_width < 80 {
                let r = vec![ColumnConstraint::Length(6), ColumnConstraint::Percentage(100)];
                proof {
                    assert(r@ =~= seq![ColumnConstraint::Length(6), ColumnConstraint::Percentage(100)]);
                }
                r
            } else {
                two_column_widths()
            }
        }
    }

    /// Column count, total fixed width, merged column width and switch.
    pub fn get_layout_stats(&self) -> (r: LayoutStats)
        requires
            fixed_width(self.columns()) <= u16::MAX,
        ensures
            r.total_columns == (if self.order_flow() { 4usize } else { 2usize }),
            r.total_fixed_width == fixed_width(self.columns()),
            r.merged_column_width == self.merged_width(),
            r.merged_column_enabled == self.merged(),
    {
        let mut total: u16 = 0;
        let mut i: usize = 0;
        while i < self.column_widths.len()
            invariant
                0 <= i <= self.column_widths@.len(),
                total == fixed_width(self.column_widths@.take(i as int)),
                fixed_width(self.column_widths@) <= u16::MAX,
            decreases self.column_widths.len() - i,
        {
            proof {
                assert(self.column_widths@.take(i + 1).drop_last() =~= self.column_widths@.take(i as int));
                lemma_fixed_width_prefix(self.column_widths@, i + 1);
            }
            match self.column_widths[i] {
                ColumnConstraint::Length(w) => {
                    total = total + w;
                },
                _ => {},
            }
            i = i + 1;
        }
        proof {
            assert(self.column_widths@.take(self.column_widths@.len() as int) =~= self.column_widths@);
        }
        LayoutStats {
            total_columns: if self.show_order_flow { 4 } else { 2 },
            total_fixed_width: total,
            merged_column_width: self.cell_width,
            merged_column_enabled: self.show_merged_column,
        }
    }
}

proof fn lemma_fixed_width_prefix(cs: Seq<ColumnConstraint>, k: int)
    requires
        0 <= k <= cs.len(),
    ensures
        fixed_width(cs.take(k)) <= fixed_width(cs),
    decreases cs.len() - k,
{
    if k < cs.len() {
        lemma_fixed_width_prefix(cs, k + 1);
        assert(cs.take(k + 1).drop_last() =~= cs.take(k));
    } else {
        assert(cs.take(k) =~= cs);
    }
}

/// The widths worked out for any table width have as many columns as the layout
/// statistics report: four with order flow, two without.
pub proof fn lemma_widths_match_columns(order_flow: bool, total_width: u16)
    ensures
        (if order_flow {
            if total_width < 120 {
                seq![ColumnConstraint::Length(6), ColumnConstraint::Percentage(35), ColumnConstraint::Percentage(32), ColumnConstraint::Percentage(33)]
            } else {
                four_columns()
            }
        } else {
            if total_width < 80 {
                seq![ColumnConstraint::Length(6), ColumnConstraint::Percentage(100)]
            } else {
                two_columns()
            }
        }).len() == (if order_flow { 4int } else { 2int }),
{
}

impl Default for LayoutManager {
    /// The same as `new`.
    fn default() -> (r: Self)
        ensures
            r.columns() == four_columns(),
            r.merged(),
            r.order_flow(),
            r.merged_width() == 60,
    {
        Self::new()
    }
}

} // verus!
