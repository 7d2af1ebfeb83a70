use std::collections::HashMap;

use vrp_planner::availability::AvailabilityTable;
use vrp_planner::manhattan::ManhattanMatrix;
use vrp_planner::solver::{solve, SolveOptions};
use vrp_planner::traits::{Visit, VisitPinType, Visitor};

fn coord(lat: f64, lng: f64) -> (i64, i64) {
    (
        (lat * 1_000_000.0).round() as i64,
        (lng * 1_000_000.0).round() as i64,
    )
}

fn mock_visit(id: &str, lat: f64, lng: f64, duration_min: u32, pin_type: VisitPinType, pinned_visitor: Option<&str>) -> Visit {
    Visit {
        id: id.to_string(),
        location: coord(lat, lng),
        duration_seconds: duration_min * 60,
        pin_type,
        pinned_visitor: pinned_visitor.map(|p| p.to_string()),
        pinned_date: None,
        committed_window: None,
        target_time: None,
        required_capabilities: Vec::new(),
        current_visitor: None,
    }
}

fn mock_visitor(id: &str) -> Visitor {
    Visitor {
        id: id.to_string(),
        start_location: Some(coord(0.0, 0.0)),
        end_location: None,
        capabilities: Vec::new(),
    }
}

#[test]
fn honors_pinned_visitor() {
    let visits = vec![
        mock_visit("v1", 1.0, 0.0, 30, VisitPinType::Visitor, Some("a")),
        mock_visit("v2", 2.0, 0.0, 30, VisitPinType::Unpinned, None),
    ];

    let visitors = vec![mock_visitor("a"), mock_visitor("b")];

    let availability = AvailabilityTable::new().default_window(0, 8 * 3600);
    let result = solve(
        1,
        &visits,
        &visitors,
        &availability,
        &ManhattanMatrix,
        SolveOptions::default(),
    );

    let mut assigned: HashMap<&str, Vec<&str>> = HashMap::new();
    for route in &result.routes {
        let ids = route.visit_ids.iter().map(|id| id.as_str()).collect::<Vec<_>>();
        assigned.insert(route.visitor_id.as_str(), ids);
    }

    let a_route = assigned.get("a").cloned().unwrap_or_default();
    assert!(a_route.contains(&"v1"));
}
