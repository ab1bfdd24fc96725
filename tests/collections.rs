use exercises::count_distinct::new_count_distinct;
use exercises::district::{count_connected_components, count_provinces, District, Graph};
use exercises::retirement::{
    category_from_label, retirement_for, retirement_plan, RetirementCategory, RetirementResult,
};

fn graph(n: usize, edges: &[(usize, usize)]) -> Graph {
    let mut g = Graph::new(n);
    for &(a, b) in edges {
        g = g.add_edge(a, b);
    }
    g
}

#[test]
fn components_of_small_graphs() {
    assert_eq!(count_connected_components(&graph(0, &[])), 0);
    assert_eq!(count_connected_components(&graph(3, &[])), 3);
    assert_eq!(count_connected_components(&graph(3, &[(0, 1)])), 2);
    assert_eq!(count_connected_components(&graph(5, &[(0, 4), (4, 2), (1, 3)])), 2);
    assert_eq!(count_connected_components(&graph(4, &[(0, 1), (1, 2), (2, 3), (3, 0)])), 1);
    assert_eq!(count_connected_components(&graph(2, &[(1, 1)])), 2);
}

#[test]
fn provinces_of_batches() {
    let district = District(vec![
        graph(3, &[(0, 1)]),
        graph(4, &[(0, 1), (2, 3), (1, 2)]),
        graph(12, &[]),
    ]);
    assert_eq!(count_provinces(&district), "2,1,12");
    assert_eq!(count_provinces(&District(vec![])), "");
}

#[test]
fn distinct_fields() {
    assert_eq!(new_count_distinct("a,b,a,c"), 3);
    assert_eq!(new_count_distinct(""), 1);
    assert_eq!(new_count_distinct("a,,a,"), 2);
    assert_eq!(new_count_distinct("x"), 1);
    assert_eq!(new_count_distinct("ab,a,b,ab"), 3);
}

#[test]
fn retirement_cases() {
    assert_eq!(category_from_label("男职工"), Some(RetirementCategory::Male));
    assert_eq!(category_from_label("someone"), None);
    assert_eq!(
        retirement_plan("1965-01", "男职工"),
        Some(RetirementResult { year: 2025, month: 2, age_months: 721, delay_months: 1 })
    );
    assert_eq!(
        retirement_plan("1971-04", "原法定退休年龄55周岁女职工"),
        Some(RetirementResult { year: 2026, month: 8, age_months: 664, delay_months: 4 })
    );
    assert_eq!(
        retirement_plan("1995-12", "原法定退休年龄50周岁女职工"),
        Some(RetirementResult { year: 2050, month: 12, age_months: 660, delay_months: 60 })
    );
    assert_eq!(
        retirement_plan("1960-05", "男职工"),
        Some(RetirementResult { year: 2020, month: 5, age_months: 720, delay_months: 0 })
    );
    assert_eq!(retirement_plan("1965-13", "男职工"), None);
    assert_eq!(retirement_plan("1965-01", "工人"), None);
    assert_eq!(
        retirement_for(1971, 4, RetirementCategory::FemaleManagerial),
        RetirementResult { year: 2026, month: 8, age_months: 664, delay_months: 4 }
    );
}
