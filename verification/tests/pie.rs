use satsbudget::budget::{Expense, ExpenseApp};
use satsbudget::double::Double;
use satsbudget::pie::{pie, SliceColor};

fn d(x: f64) -> Double {
    Double::from_bits(x.to_bits())
}

fn entry(name: &str, amount: f64) -> Expense {
    Expense { name: name.to_string(), amount: d(amount) }
}

#[test]
fn the_pie_of_a_new_application() {
    let app = ExpenseApp::new();
    let entries = app.pie_entries();
    assert_eq!(entries.len(), 3);
    assert_eq!(entries[2].name, "Remaining");
    assert_eq!(entries[2].amount, d(650.0));
    let slices = app.pie_slices();
    let captions: Vec<&str> = slices.iter().map(|s| s.caption.as_str()).collect();
    assert_eq!(captions, vec!["Rent (20%)", "Food (15%)", "Remaining (65%)"]);
    let colors: Vec<SliceColor> = slices.iter().map(|s| s.color).collect();
    assert_eq!(
        colors,
        vec![SliceColor::LightRed, SliceColor::LightGreen, SliceColor::Orange]
    );
    assert_eq!(slices[0].share, d(0.2));
    assert!(slices.iter().all(|s| s.inside));
}

#[test]
fn negligible_entries_have_no_slice_but_use_up_a_color() {
    let slices = pie(&vec![
        entry("a", 0.0),
        entry("b", 5.0),
        entry("c", 1e-6),
        entry("d", -3.0),
        entry("e", 95.0),
    ]);
    assert_eq!(slices.len(), 2);
    assert_eq!(slices[0].color, SliceColor::LightGreen);
    assert_eq!(slices[0].share, d(5.0 / (5.0 + 1e-6 - 3.0 + 95.0)));
    assert_eq!(slices[1].color, SliceColor::Red);
    assert!(!slices[0].inside);
    assert!(slices[1].inside);
}

#[test]
fn colors_are_used_in_turn() {
    let names = ["a", "b", "c", "d", "e", "f", "g"];
    let slices = pie(&names.iter().map(|n| entry(n, 1.0)).collect());
    let colors: Vec<SliceColor> = slices.iter().map(|s| s.color).collect();
    assert_eq!(
        colors,
        vec![
            SliceColor::LightRed,
            SliceColor::LightGreen,
            SliceColor::LightBlue,
            SliceColor::Yellow,
            SliceColor::Red,
            SliceColor::Blue,
            SliceColor::LightRed,
        ]
    );
}

#[test]
fn any_entry_called_remaining_is_orange() {
    let slices = pie(&vec![entry("Remaining", 1.0), entry("b", 1.0)]);
    assert_eq!(slices[0].color, SliceColor::Orange);
    assert_eq!(slices[0].caption, "Remaining (50%)");
}

#[test]
fn a_tenth_does_not_fit_inside() {
    let slices = pie(&vec![entry("a", 1.0), entry("b", 9.0)]);
    assert_eq!(slices[0].share, d(0.1));
    assert!(!slices[0].inside);
    assert!(slices[1].inside);
}

#[test]
fn a_negligible_whole_has_no_pie() {
    assert!(pie(&vec![]).is_empty());
    assert!(pie(&vec![entry("a", 1e-6)]).is_empty());
    assert!(pie(&vec![entry("a", 5.0), entry("b", -5.0)]).is_empty());
}

#[test]
fn an_overdrawn_budget_has_no_remaining_slice() {
    let mut app = ExpenseApp::new();
    app.total_budget = d(350.0);
    assert_eq!(app.pie_entries().len(), 2);
    app.total_budget = d(350.0000005);
    assert_eq!(app.pie_entries().len(), 2);
    app.total_budget = d(351.0);
    assert_eq!(app.pie_entries().len(), 3);
}

#[test]
fn a_new_expense_leaves_the_pie_as_it_was() {
    let mut app = ExpenseApp::new();
    let before: Vec<String> = app.pie_slices().into_iter().map(|s| s.caption).collect();
    app.add_expense();
    let after: Vec<String> = app.pie_slices().into_iter().map(|s| s.caption).collect();
    assert_eq!(before, after);
}

fn scaled(app: &ExpenseApp, k: f64) -> ExpenseApp {
    let times = |x: Double| d(f64::from_bits(x.to_bits()) * k);
    let mut other = ExpenseApp::new();
    other.total_budget = times(app.total_budget);
    other.expenses = app
        .expenses
        .iter()
        .map(|e| Expense { name: e.name.clone(), amount: times(e.amount) })
        .collect();
    other
}

#[test]
fn the_pie_depends_on_proportions() {
    let mut app = ExpenseApp::new();
    app.expenses = vec![entry("a", 123.45), entry("b", 0.1), entry("c", 333.3)];
    let slices = app.pie_slices();
    for k in [8.0, 0.25] {
        let same = scaled(&app, k).pie_slices();
        assert_eq!(same.len(), slices.len());
        for (x, y) in slices.iter().zip(&same) {
            assert_eq!(x.share, y.share);
            assert_eq!(x.color, y.color);
            assert_eq!(x.caption, y.caption);
            assert_eq!(x.inside, y.inside);
        }
    }
    let near = scaled(&app, 3.0).pie_slices();
    assert_eq!(near.len(), slices.len());
    for (x, y) in slices.iter().zip(&near) {
        assert_eq!(x.color, y.color);
        assert_eq!(x.caption.split(" (").next(), y.caption.split(" (").next());
        let difference = f64::from_bits(x.share.to_bits()) - f64::from_bits(y.share.to_bits());
        assert!(difference.abs() <= 92.0 / 9007199254740992.0);
    }
}

#[test]
fn shares_are_near_the_proportions() {
    let slices = pie(&vec![entry("a", 1.0), entry("b", 2.0), entry("c", 4.0)]);
    let expected = [1.0 / 7.0, 2.0 / 7.0, 4.0 / 7.0];
    for (slice, x) in slices.iter().zip(expected) {
        let share = f64::from_bits(slice.share.to_bits());
        assert!((share - x).abs() <= 8.0 / 9007199254740992.0);
        assert!(share <= 1.0);
    }
    assert_eq!(pie(&vec![entry("a", 0.1)])[0].share, d(1.0));
}
