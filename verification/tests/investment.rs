use adam_core::ids::{FirmId, ProjectId, RegionId};
use adam_core::investment::{InvestmentProject, InvestmentStatus};
use adam_core::value::Money;

#[test]
fn project_spending_finishes_exactly() {
    let mut p = InvestmentProject::new(
        ProjectId::new(1),
        FirmId::new(1),
        RegionId::new(1),
        Money::from_minor_units(100),
        3,
        5,
    )
    .expect("project");
    assert!(!p.advance().expect("month"));
    assert!(!p.advance().expect("month"));
    assert!(p.advance().expect("month"));
    assert_eq!(p.spent(), Money::from_minor_units(100));
    assert_eq!(p.status(), InvestmentStatus::Completed);
}

#[test]
fn spending_is_linear_in_elapsed_months_and_closed_projects_refuse_to_advance() {
    let mut p = InvestmentProject::new(
        ProjectId::new(2),
        FirmId::new(1),
        RegionId::new(1),
        Money::from_minor_units(100),
        3,
        5,
    )
    .expect("project");
    p.advance().expect("month");
    assert_eq!(p.spent(), Money::from_minor_units(33));
    p.advance().expect("month");
    assert_eq!(p.spent(), Money::from_minor_units(66));
    p.advance().expect("month");
    assert!(p.advance().is_err());
    assert!(InvestmentProject::new(
        ProjectId::new(3),
        FirmId::new(1),
        RegionId::new(1),
        Money::from_minor_units(0),
        3,
        5,
    )
    .is_err());
}
