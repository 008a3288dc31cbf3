//! The pie chart of the budget: its slices, their captions and colours.

use crate::budget::{Expense, ExpenseApp, ExpenseView};
use crate::double::Double;
use crate::{budget, decimal, double};
use vstd::prelude::*;
use vstd::string::*;

verus! {

/// The colour of a slice.
#[derive(Clone, Copy, Debug, PartialEq, Eq, Structural)]
pub enum SliceColor {
    LightRed,
    LightGreen,
    LightBlue,
    Yellow,
    Red,
    Blue,
    Orange,
}

/// A slice of the pie.
pub struct Slice {
    /// The share of the whole.
    pub share: Double,
    pub color: SliceColor,
    pub caption: String,
    /// Whether the caption fits into the slice.
    pub inside: bool,
}

/// A slice as a mathematical value.
pub struct SliceView {
    pub share: Double,
    pub color: SliceColor,
    pub caption: Seq<char>,
    pub inside: bool,
}

impl View for Slice {
    type V = SliceView;

    open spec fn view(&self) -> SliceView {
        SliceView {
            share: self.share,
            color: self.color,
            caption: self.caption@,
            inside: self.inside,
        }
    }
}

/// Slices as mathematical values.
pub open spec fn shown(slices: Seq<Slice>) -> Seq<SliceView> {
    slices.map_values(|s: Slice| s@)
}

/// The colours that entries get in turn.
pub open spec fn cycle_color(i: int) -> SliceColor {
    let place = i % 6;
    if place == 0 {
        SliceColor::LightRed
    } else if place == 1 {
        SliceColor::LightGreen
    } else if place == 2 {
        SliceColor::LightBlue
    } else if place == 3 {
        SliceColor::Yellow
    } else if place == 4 {
        SliceColor::Red
    } else {
        SliceColor::Blue
    }
}

/// The colour of the entry called `label` at place `i`.
pub open spec fn entry_color(label: Seq<char>, i: int) -> SliceColor {
    if label == "Remaining"@ {
        SliceColor::Orange
    } else {
        cycle_color(i)
    }
}

/// The entries of the pie: the planned expenses and, unless it is negligible,
/// what is left of the budget.
pub open spec fn entries(expenses: Seq<ExpenseView>, left: Double) -> Seq<ExpenseView> {
    if budget::negligible().below(left) {
        expenses.push(ExpenseView { name: "Remaining"@, amount: left })
    } else {
        expenses
    }
}

/// The caption of a slice: the label and the share in whole percent.
pub open spec fn caption_text(label: Seq<char>, share: Double) -> Seq<char> {
    label + " ("@ + decimal::fixed_text(share.product(double::whole(100)), 0) + "%)"@
}

/// The slice of the entry at place `i`.
pub open spec fn slice_of(entry: ExpenseView, i: int, whole: Double) -> SliceView {
    let share = entry.amount.quotient(whole);
    SliceView {
        share,
        color: entry_color(entry.name, i),
        caption: caption_text(entry.name, share),
        inside: double::ratio(1, 10).below(share),
    }
}

/// The slices of entries that add up to `whole`. Negligible entries have none,
/// but count for the colours of later ones.
pub open spec fn slices(data: Seq<ExpenseView>, whole: Double) -> Seq<SliceView>
    decreases data.len(),
{
    if data.len() == 0 {
        Seq::empty()
    } else {
        let before = slices(data.drop_last(), whole);
        if data.last().amount.at_most(budget::negligible()) {
            before
        } else {
            before.push(slice_of(data.last(), data.len() - 1, whole))
        }
    }
}

/// The pie of the given entries: empty where they add up to a negligible
/// amount.
pub open spec fn pie_of(data: Seq<ExpenseView>) -> Seq<SliceView> {
    let whole = budget::total(data);
    if whole.at_most(budget::negligible()) {
        Seq::empty()
    } else {
        slices(data, whole)
    }
}

/// The colour of the entry called `label` at place `i`.
fn color_of(label: &String, i: usize) -> (r: SliceColor)
    ensures
        r == entry_color(label@, i as int),
{
    let rest: String = "Remaining".to_owned();
    if *label == rest {
        return SliceColor::Orange;
    }
    match i % 6 {
        0 => SliceColor::LightRed,
        1 => SliceColor::LightGreen,
        2 => SliceColor::LightBlue,
        3 => SliceColor::Yellow,
        4 => SliceColor::Red,
        _ => SliceColor::Blue,
    }
}

/// The caption of a slice.
fn caption(label: &String, share: Double) -> (r: String)
    ensures
        r@ == caption_text(label@, share),
{
    let percent = share.times(Double::from_count(100));
    let mut text: String = label.clone();
    text.append(" (");
    text.append(decimal::fixed(percent, 0).as_str());
    text.append("%)");
    text
}

/// The slices of the given entries.
pub fn pie(data: &Vec<Expense>) -> (r: Vec<Slice>)
    ensures
        shown(r@) == pie_of(budget::plan(data@)),
{
    let ghost all = budget::plan(data@);
    let mut r: Vec<Slice> = Vec::new();
    let whole = budget::sum_of(data);
    let eps = budget::eps();
    proof {
        assert(shown(r@) =~= Seq::<SliceView>::empty());
        assert(all.take(0) =~= Seq::<ExpenseView>::empty());
    }
    if whole.le(eps) {
        return r;
    }
    let tenth = Double::fraction(1, 10);
    let mut i: usize = 0;
    while i < data.len()
        invariant
            i <= data.len(),
            all == budget::plan(data@),
            eps == budget::negligible(),
            tenth == double::ratio(1, 10),
            shown(r@) == slices(all.take(i as int), whole),
        decreases data.len() - i,
    {
        let entry = &data[i];
        proof {
            let upto = all.take(i + 1);
            assert(upto.drop_last() =~= all.take(i as int));
            assert(upto.last() == entry@);
        }
        if !entry.amount.le(eps) {
            let share = entry.amount.over(whole);
            let slice = Slice {
                share,
                color: color_of(&entry.name, i),
                caption: caption(&entry.name, share),
                inside: tenth.lt(share),
            };
            let ghost before = r@;
            r.push(slice);
            proof {
                assert(shown(r@) =~= shown(before).push(slice@));
            }
        }
        i = i + 1;
    }
    proof {
        assert(all.take(all.len() as int) =~= all);
    }
    r
}

impl ExpenseApp {
    /// The entries of the pie.
    pub fn pie_entries(&self) -> (r: Vec<Expense>)
        ensures
            budget::plan(r@) == entries(budget::plan(self.expenses@), self.left()),
    {
        let mut data: Vec<Expense> = Vec::new();
        let mut i: usize = 0;
        while i < self.expenses.len()
            invariant
                i <= self.expenses.len(),
                budget::plan(data@) == budget::plan(self.expenses@).take(i as int),
            decreases self.expenses.len() - i,
        {
            let e = &self.expenses[i];
            let ghost before = data@;
            data.push(Expense { name: e.name.clone(), amount: e.amount });
            proof {
                assert(budget::plan(data@) =~= budget::plan(before).push(e@));
                assert(budget::plan(self.expenses@).take(i + 1) =~= budget::plan(
                    self.expenses@,
                ).take(i as int).push(e@));
            }
            i = i + 1;
        }
        proof {
            assert(budget::plan(self.expenses@).take(self.expenses@.len() as int) =~= budget::plan(
                self.expenses@,
            ));
        }
        let remaining = self.remaining();
        if budget::eps().lt(remaining) {
            let ghost before = data@;
            data.push(Expense { name: "Remaining".to_owned(), amount: remaining });
            proof {
                assert(budget::plan(data@) =~= budget::plan(before).push(
                    ExpenseView { name: "Remaining"@, amount: remaining },
                ));
            }
        }
        data
    }

    /// The slices of the pie chart of the budget.
    pub fn pie_slices(&self) -> (r: Vec<Slice>)
        ensures
            shown(r@) == pie_of(entries(budget::plan(self.expenses@), self.left())),
    {
        pie(&self.pie_entries())
    }
}

} // verus!
