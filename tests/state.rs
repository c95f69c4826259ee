use sheeet::{
    CellPointer, Dependencies, Expression, Host, HostValue, ResolveDisplay, SerializableState,
    SheetError, State,
};

/// A host with integer arithmetic over the values that cells hold, which records what it was
/// asked to show and which arguments it received.
struct TestHost {
    shown: Vec<(CellPointer, HostValue)>,
    calls: Vec<(String, Vec<HostValue>)>,
    fail_display: bool,
}

impl TestHost {
    fn new() -> Self {
        TestHost { shown: Vec::new(), calls: Vec::new(), fail_display: false }
    }
}

fn number(v: &HostValue) -> Option<f64> {
    match v {
        HostValue::Null => Some(0.0),
        HostValue::Int(i) => Some(*i as f64),
        HostValue::Text(t) => t.trim().parse::<f64>().ok(),
        _ => None,
    }
}

fn numbers(v: &HostValue) -> Vec<f64> {
    match v {
        HostValue::List(items) => items.iter().filter_map(number).collect(),
        other => number(other).into_iter().collect(),
    }
}

fn value_of(x: f64) -> HostValue {
    if x.fract() == 0.0 {
        HostValue::Int(x as i64)
    } else {
        HostValue::Text(x.to_string())
    }
}

fn text(v: &HostValue) -> String {
    match v {
        HostValue::Text(t) => t.clone(),
        HostValue::Int(i) => i.to_string(),
        HostValue::Bool(b) => b.to_string(),
        HostValue::Null => String::new(),
        HostValue::List(items) => items.iter().map(text).collect::<Vec<_>>().join(","),
    }
}

impl Host for TestHost {
    fn call_function(&mut self, name: &str, args: Vec<HostValue>) -> Result<HostValue, HostValue> {
        self.calls.push((name.to_string(), args.iter().map(|a| a.duplicate()).collect()));
        match name {
            "add" | "sub" => {
                let a = number(&args[0]).ok_or(HostValue::Text("not a number".into()))?;
                let b = number(&args[1]).ok_or(HostValue::Text("not a number".into()))?;
                Ok(value_of(if name == "add" { a + b } else { a - b }))
            }
            "avg" => {
                let xs = numbers(&args[0]);
                if xs.is_empty() {
                    return Ok(HostValue::Int(0));
                }
                Ok(value_of(xs.iter().sum::<f64>() / xs.len() as f64))
            }
            "concat_with" => {
                let parts: Vec<String> = match &args[0] {
                    HostValue::List(items) => items.iter().map(text).collect(),
                    other => vec![text(other)],
                };
                Ok(HostValue::Text(parts.join(&text(&args[1]))))
            }
            _ => Err(HostValue::Text(format!("unknown function {name}"))),
        }
    }

    fn cell_display_changed(&mut self, key: CellPointer, value: &HostValue) -> Result<(), HostValue> {
        if self.fail_display {
            return Err(HostValue::Text("display failed".into()));
        }
        self.shown.push((key, value.duplicate()));
        Ok(())
    }
}

fn key(name: &str) -> CellPointer {
    match sheeet::Reference::parse(name).unwrap() {
        sheeet::Reference::Single(k) => k,
        other => panic!("not a single cell: {other:?}"),
    }
}

fn resolved(state: &State, name: &str) -> Option<HostValue> {
    state.get_cell_resolved_value(key(name))
}

#[test]
fn chained_arithmetic() {
    let mut host = TestHost::new();
    let mut state = State::new();
    state.upsert_cell(&mut host, key("A1"), "2").unwrap();
    state.upsert_cell(&mut host, key("A2"), "3").unwrap();
    let b1 = state.upsert_cell(&mut host, key("B1"), "=add(A1,A2)").unwrap();
    assert_eq!(b1, HostValue::Int(5));
    assert_eq!(resolved(&state, "B1"), Some(HostValue::Int(5)));
    state.upsert_cell(&mut host, key("A1"), "10").unwrap();
    assert_eq!(resolved(&state, "B1"), Some(HostValue::Int(13)));
    assert!(host.shown.contains(&(key("B1"), HostValue::Int(13))));
    assert!(!host.shown.iter().any(|(k, _)| *k == key("A1")));
}

#[test]
fn cycle_rejection() {
    let mut host = TestHost::new();
    let mut state = State::new();
    state.upsert_cell(&mut host, key("A1"), "=A2").unwrap();
    match state.upsert_cell(&mut host, key("A2"), "=A1") {
        Err(SheetError::CircularDependency(chain)) => {
            assert_eq!(chain, vec![key("A2"), key("A1"), key("A2")]);
        }
        other => panic!("expected a cycle, got {other:?}"),
    }
    assert_eq!(state.get_cell_raw_value(key("A2")), None);
    assert_eq!(resolved(&state, "A1"), Some(HostValue::Null));
}

#[test]
fn self_reference_through_range_is_rejected() {
    let mut host = TestHost::new();
    let mut state = State::new();
    state.upsert_cell(&mut host, key("A1"), "1").unwrap();
    let r = state.upsert_cell(&mut host, key("A2"), "=avg(A1:A)");
    assert!(matches!(r, Err(SheetError::CircularDependency(_))));
    assert_eq!(state.get_cell_raw_value(key("A2")), None);
}

#[test]
fn unbounded_column_range() {
    let mut host = TestHost::new();
    let mut state = State::new();
    state.upsert_cell(&mut host, key("A1"), "1").unwrap();
    state.upsert_cell(&mut host, key("A2"), "2").unwrap();
    state.upsert_cell(&mut host, key("A3"), "3").unwrap();
    state.upsert_cell(&mut host, key("B1"), "=avg(A1:A)").unwrap();
    assert_eq!(resolved(&state, "B1"), Some(HostValue::Int(2)));
    state.upsert_cell(&mut host, key("A4"), "6").unwrap();
    assert_eq!(resolved(&state, "B1"), Some(HostValue::Int(3)));
}

#[test]
fn remove_propagates() {
    let mut host = TestHost::new();
    let mut state = State::new();
    state.upsert_cell(&mut host, key("A1"), "2").unwrap();
    state.upsert_cell(&mut host, key("A2"), "3").unwrap();
    state.upsert_cell(&mut host, key("B1"), "=add(A1,A2)").unwrap();
    state.upsert_cell(&mut host, key("A1"), "10").unwrap();
    host.shown.clear();
    state.remove_cell(&mut host, key("A1")).unwrap();
    assert_eq!(state.get_cell_raw_value(key("A1")), None);
    assert_eq!(resolved(&state, "B1"), Some(HostValue::Int(3)));
    assert_eq!(host.shown, vec![(key("B1"), HostValue::Int(3))]);
}

#[test]
fn copy_with_distance() {
    let mut host = TestHost::new();
    let mut state = State::new();
    state.upsert_cell(&mut host, key("C1"), "=add(A1,B1)").unwrap();
    assert_eq!(state.copy_cell_expression(key("C1"), key("C2")).unwrap(), "=add(A2,B2)");
    assert_eq!(state.get_cell_raw_value(key("C2")), None);
    assert_eq!(state.get_cell_raw_value(key("C1")), Some(String::from("=add(A1,B1)")));
    assert!(matches!(state.copy_cell_expression(key("D1"), key("D2")), Err(SheetError::NotFound)));
    assert!(matches!(
        state.copy_cell_expression(key("C1"), CellPointer(1, 0)),
        Err(SheetError::BadCopy)
    ));
}

#[test]
fn quoted_string_literal() {
    let mut host = TestHost::new();
    let mut state = State::new();
    state.upsert_cell(&mut host, key("A1"), "x").unwrap();
    state.upsert_cell(&mut host, key("A2"), "y").unwrap();
    let v = state.upsert_cell(&mut host, key("X1"), "=concat_with(A1:A, \", \")").unwrap();
    assert_eq!(v, HostValue::Text(String::from("x, y")));
    let (name, args) = host.calls.last().unwrap();
    assert_eq!(name, "concat_with");
    assert_eq!(args[1], HostValue::Text(String::from(", ")));
}

#[test]
fn idempotent_upsert() {
    let mut host = TestHost::new();
    let mut state = State::new();
    state.upsert_cell(&mut host, key("A1"), "4").unwrap();
    let first = state.upsert_cell(&mut host, key("B1"), "=add(A1, 1)").unwrap();
    let second = state.upsert_cell(&mut host, key("B1"), "=add(A1, 1)").unwrap();
    assert_eq!(first, second);
    assert_eq!(resolved(&state, "B1"), Some(HostValue::Int(5)));
    state.upsert_cell(&mut host, key("A1"), "5").unwrap();
    assert_eq!(resolved(&state, "B1"), Some(HostValue::Int(6)));
}

#[test]
fn changed_reference_stops_old_propagation() {
    let mut host = TestHost::new();
    let mut state = State::new();
    state.upsert_cell(&mut host, key("A1"), "1").unwrap();
    state.upsert_cell(&mut host, key("A2"), "2").unwrap();
    state.upsert_cell(&mut host, key("B1"), "=add(A1, 0)").unwrap();
    state.upsert_cell(&mut host, key("B1"), "=add(A2, 0)").unwrap();
    host.shown.clear();
    state.upsert_cell(&mut host, key("A1"), "7").unwrap();
    assert!(host.shown.is_empty());
    assert_eq!(resolved(&state, "B1"), Some(HostValue::Int(2)));
}

#[test]
fn fixed_point_stops_propagation() {
    let mut host = TestHost::new();
    let mut state = State::new();
    state.upsert_cell(&mut host, key("A1"), "1").unwrap();
    state.upsert_cell(&mut host, key("B1"), "=sub(A1, A1)").unwrap();
    state.upsert_cell(&mut host, key("C1"), "=add(B1, 1)").unwrap();
    host.shown.clear();
    state.upsert_cell(&mut host, key("A1"), "9").unwrap();
    assert_eq!(host.shown, vec![(key("B1"), HostValue::Int(0))]);
}

#[test]
fn bad_expression_leaves_store_unchanged() {
    let mut host = TestHost::new();
    let mut state = State::new();
    state.upsert_cell(&mut host, key("A1"), "1").unwrap();
    assert!(matches!(
        state.upsert_cell(&mut host, key("A1"), "=add(1"),
        Err(SheetError::BadExpression(_))
    ));
    assert_eq!(state.get_cell_raw_value(key("A1")), Some(String::from("1")));
    assert!(matches!(state.insert_cell(key("A2"), "=,"), Err(SheetError::BadExpression(_))));
}

#[test]
fn host_errors_become_sentinel_values() {
    let mut host = TestHost::new();
    let mut state = State::new();
    let v = state.upsert_cell(&mut host, key("A1"), "=nope(1)").unwrap();
    assert_eq!(v, HostValue::Text(String::from("resolve error: unknown function nope")));
}

#[test]
fn display_errors_abort_propagation() {
    let mut host = TestHost::new();
    let mut state = State::new();
    state.upsert_cell(&mut host, key("A1"), "1").unwrap();
    state.upsert_cell(&mut host, key("B1"), "=add(A1, 1)").unwrap();
    host.fail_display = true;
    let r = state.upsert_cell(&mut host, key("A1"), "2");
    assert!(matches!(r, Err(SheetError::HostError(_))));
    assert_eq!(state.get_cell_raw_value(key("A1")), Some(String::from("2")));
}

#[test]
fn missing_reference_is_null() {
    let mut host = TestHost::new();
    let mut state = State::new();
    let v = state.upsert_cell(&mut host, key("A1"), "=Z9").unwrap();
    assert_eq!(v, HostValue::Null);
}

#[test]
fn bounded_range_skips_empty_cells() {
    let mut host = TestHost::new();
    let mut state = State::new();
    state.upsert_cell(&mut host, key("A1"), "2").unwrap();
    state.upsert_cell(&mut host, key("B2"), "4").unwrap();
    let v = state.upsert_cell(&mut host, key("C1"), "=avg(B2:A1)").unwrap();
    assert_eq!(v, HostValue::Int(3));
    state.upsert_cell(&mut host, key("A2"), "9").unwrap();
    assert_eq!(resolved(&state, "C1"), Some(HostValue::Int(5)));
}

#[test]
fn unbounded_row_range() {
    let mut host = TestHost::new();
    let mut state = State::new();
    state.upsert_cell(&mut host, key("A1"), "1").unwrap();
    state.upsert_cell(&mut host, key("B1"), "5").unwrap();
    state.upsert_cell(&mut host, key("A3"), "=avg(A1:1)").unwrap();
    assert_eq!(resolved(&state, "A3"), Some(HostValue::Int(3)));
    state.upsert_cell(&mut host, key("C1"), "9").unwrap();
    assert_eq!(resolved(&state, "A3"), Some(HostValue::Int(5)));
}

#[test]
fn serialization_round_trip() {
    let mut host = TestHost::new();
    let mut state = State::new();
    state.upsert_cell(&mut host, key("A1"), "2").unwrap();
    state.upsert_cell(&mut host, key("A2"), "3").unwrap();
    state.upsert_cell(&mut host, key("B1"), "=add(A1,A2)").unwrap();
    let doc = state.to_serializable_state();
    assert_eq!(doc.sheet_bounds, (27, 65));
    assert_eq!(doc.data.len(), 3);
    let mut loaded = doc.to_memory_state(&mut host).unwrap();
    for name in ["A1", "A2", "B1"] {
        assert_eq!(loaded.get_cell_raw_value(key(name)), state.get_cell_raw_value(key(name)));
    }
    loaded.recalculate(&mut host).unwrap();
    for name in ["A1", "A2", "B1"] {
        assert_eq!(resolved(&loaded, name), resolved(&state, name));
    }
}

#[test]
fn loading_resolves_lazily_in_any_order() {
    let mut host = TestHost::new();
    let doc = SerializableState {
        sheet_bounds: (10, 10),
        data: vec![
            (CellPointer(2, 1), String::from("=add(A1, A2)")),
            (CellPointer(1, 1), String::from("=add(A2, 1)")),
            (CellPointer(1, 2), String::from("4")),
        ],
    };
    let mut state = doc.to_memory_state(&mut host).unwrap();
    assert!(host.shown.is_empty());
    assert_eq!(resolved(&state, "B1"), Some(HostValue::Int(9)));
    state.upsert_cell(&mut host, key("A2"), "1").unwrap();
    assert_eq!(resolved(&state, "A1"), Some(HostValue::Int(2)));
    assert_eq!(resolved(&state, "B1"), Some(HostValue::Int(3)));
    let bad = SerializableState { sheet_bounds: (1, 1), data: vec![(CellPointer(1, 1), String::from("=f(,"))] };
    assert!(matches!(bad.to_memory_state(&mut host), Err(SheetError::BadExpression(_))));
}

#[test]
fn evaluation_collects_dependencies() {
    let mut host = TestHost::new();
    let mut state = State::new();
    state.insert_cell(key("A1"), "5").unwrap();
    let expr = Expression::parse("=add(A1, 1)").unwrap();
    let mut deps = Dependencies::new();
    let v = state.resolve_expression_value_and_dependencies(&mut host, &mut deps, &expr).unwrap();
    assert_eq!(v, HostValue::Int(6));
    assert_eq!(deps.singles, vec![key("A1")]);
    assert!(deps.cols.is_empty() && deps.rows.is_empty());
    let expr = Expression::parse("=avg(B1:B)").unwrap();
    let mut deps = Dependencies::new();
    state.resolve_expression_value_and_dependencies(&mut host, &mut deps, &expr).unwrap();
    assert_eq!(deps.cols, vec![2]);
}

#[test]
fn display_policy_after_the_first_cell() {
    assert_eq!(ResolveDisplay::Update.next(), ResolveDisplay::Update);
    assert_eq!(ResolveDisplay::UpdateNext.next(), ResolveDisplay::Update);
    assert_eq!(ResolveDisplay::Noop.next(), ResolveDisplay::Noop);
}

#[test]
fn empty_and_bare_equal_inputs_are_values() {
    assert_eq!(Expression::parse("").unwrap(), Expression::Value(String::new()));
    assert_eq!(Expression::parse("=").unwrap(), Expression::Value(String::new()));
    assert_eq!(Expression::parse("= 12 ").unwrap(), Expression::Value(String::from("12")));
}

#[test]
fn longer_cycles_are_rejected_with_their_chain() {
    let mut host = TestHost::new();
    let mut state = State::new();
    state.upsert_cell(&mut host, key("A1"), "=B1").unwrap();
    state.upsert_cell(&mut host, key("B1"), "=C1").unwrap();
    match state.upsert_cell(&mut host, key("C1"), "=add(1, A1)") {
        Err(SheetError::CircularDependency(chain)) => {
            assert_eq!(chain, vec![key("C1"), key("A1"), key("B1"), key("C1")]);
        }
        other => panic!("expected a cycle, got {other:?}"),
    }
    assert!(matches!(
        state.upsert_cell(&mut host, key("B1"), "=avg(A1:A2)"),
        Err(SheetError::CircularDependency(_))
    ));
    assert_eq!(state.get_cell_raw_value(key("B1")), Some(String::from("=C1")));
    state.upsert_cell(&mut host, key("C1"), "=avg(D1:D)").unwrap();
    assert_eq!(resolved(&state, "A1"), Some(HostValue::Int(0)));
}

#[test]
fn failed_evaluations_store_their_error_text() {
    assert_eq!(
        sheeet::state::resolution_of(Err(SheetError::NotFound)),
        HostValue::Text(String::from("resolve error: not found"))
    );
    assert_eq!(
        sheeet::state::resolution_of(Err(SheetError::HostError(HostValue::Text(String::from("boom"))))),
        HostValue::Text(String::from("resolve error: boom"))
    );
    assert_eq!(sheeet::state::resolution_of(Ok(HostValue::Int(4))), HostValue::Int(4));
}

#[test]
fn no_display_for_the_edited_cell_and_one_per_dependent() {
    let mut host = TestHost::new();
    let mut state = State::new();
    state.upsert_cell(&mut host, key("A1"), "1").unwrap();
    state.upsert_cell(&mut host, key("B1"), "=add(A1, 1)").unwrap();
    state.upsert_cell(&mut host, key("C1"), "=add(A1, 2)").unwrap();
    host.shown.clear();
    state.upsert_cell(&mut host, key("A1"), "5").unwrap();
    assert!(!host.shown.iter().any(|(k, _)| *k == key("A1")));
    assert!(host.shown.contains(&(key("B1"), HostValue::Int(6))));
    assert!(host.shown.contains(&(key("C1"), HostValue::Int(7))));
}

#[test]
fn unresolved_literal_cells_are_read_by_ranges() {
    let mut host = TestHost::new();
    let mut state = State::new();
    state.insert_cell(key("A1"), "4").unwrap();
    state.insert_cell(key("A2"), "8").unwrap();
    let expr = Expression::parse("=avg(A1:A2)").unwrap();
    let mut deps = Dependencies::new();
    let v = state.resolve_expression_value_and_dependencies(&mut host, &mut deps, &expr).unwrap();
    assert_eq!(v, HostValue::Int(6));
    let (_, args) = host.calls.last().unwrap();
    assert_eq!(
        args[0],
        HostValue::List(vec![HostValue::Text(String::from("4")), HostValue::Text(String::from("8"))])
    );
}
