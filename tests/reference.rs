use sheeet::{column_name_to_usize, try_column_name_to_usize, usize_to_column_name};
use sheeet::{CellPointer, Reference, SheetError};

#[test]
fn test_add_and_distance() {
    assert_eq!(CellPointer(1, 1).distance(&CellPointer(2, 1)), (1, 0));
    assert_eq!(CellPointer(10, 10).distance(&CellPointer(8, 12)), (-2, 2));

    let x = CellPointer(0, 0);
    assert_eq!(x.add((1, 0)), CellPointer(1, 0));
    assert_eq!(x.add((0, 1)), CellPointer(0, 1));
    assert_eq!(x.add((3, 3)), CellPointer(3, 3));

    let x = CellPointer(10, 10);
    assert_eq!(x.add((-1, 0)), CellPointer(9, 10));
    assert_eq!(x.add((0, -1)), CellPointer(10, 9));
    assert_eq!(x.add((-3, -3)), CellPointer(7, 7));

    let x = CellPointer(9, 76);
    let y = CellPointer(1382, 21);
    assert_eq!(x.add(x.distance(&y)), y);
}

#[test]
fn reference_test_column_name() {
    assert_eq!(column_name_to_usize("A"), 1);
    assert_eq!(column_name_to_usize("a"), 1);
    assert_eq!(column_name_to_usize("Z"), 26);
    assert_eq!(column_name_to_usize("AA"), 27);
    assert_eq!(column_name_to_usize("AAB"), 54);

    assert_eq!(usize_to_column_name(1), "a");
    assert_eq!(usize_to_column_name(26), "z");
    assert_eq!(usize_to_column_name(27), "aa");
    assert_eq!(usize_to_column_name(54), "aab");

    {
        let input = "a";
        assert_eq!(usize_to_column_name(column_name_to_usize(input)), input);
    }
    {
        let input = "b";
        assert_eq!(usize_to_column_name(column_name_to_usize(input)), input);
    }
    {
        let input = "ab";
        assert_eq!(usize_to_column_name(column_name_to_usize(input)), input);
    }
    {
        let input = "aax";
        assert_eq!(usize_to_column_name(column_name_to_usize(input)), input);
    }
}

#[test]
fn lib_test_column_name() {
    assert_eq!(column_name_to_usize("A"), 1);
    assert_eq!(column_name_to_usize("a"), 1);
    assert_eq!(column_name_to_usize("Z"), 26);
    assert_eq!(column_name_to_usize("AA"), 27);
    assert_eq!(column_name_to_usize("AAB"), 54);

    assert_eq!(usize_to_column_name(1), "a");
    assert_eq!(usize_to_column_name(26), "z");
    assert_eq!(usize_to_column_name(27), "aa");
    assert_eq!(usize_to_column_name(54), "aab");

    {
        let input = "a";
        assert_eq!(usize_to_column_name(column_name_to_usize(input)), input);
    }
    {
        let input = "b";
        assert_eq!(usize_to_column_name(column_name_to_usize(input)), input);
    }
    {
        let input = "ab";
        assert_eq!(usize_to_column_name(column_name_to_usize(input)), input);
    }
    {
        let input = "aax";
        assert_eq!(usize_to_column_name(column_name_to_usize(input)), input);
    }
}

fn check_parse_reference() {
    assert_eq!(Reference::parse("A1").unwrap(), Reference::Single(CellPointer(1, 1)));
    assert_eq!(Reference::parse("A0").unwrap(), Reference::Single(CellPointer(1, 0)));
    assert_eq!(
        Reference::parse("A1:A5").unwrap(),
        Reference::BoundedRange(CellPointer(1, 1), CellPointer(1, 5))
    );
    assert_eq!(
        Reference::parse("A1:B5").unwrap(),
        Reference::BoundedRange(CellPointer(1, 1), CellPointer(2, 5))
    );
    assert_eq!(
        Reference::parse("A1:A").unwrap(),
        Reference::UnboundedColRange(CellPointer(1, 1), 1)
    );
    assert_eq!(
        Reference::parse("A1:1").unwrap(),
        Reference::UnboundedRowRange(CellPointer(1, 1), 1)
    );
    assert_eq!(
        Reference::parse("A100:AB150").unwrap(),
        Reference::BoundedRange(CellPointer(1, 100), CellPointer(28, 150))
    );

    Reference::parse("1").expect_err("expected err");
    Reference::parse("1A").expect_err("expected err");
    Reference::parse("A1A").expect_err("expected err");
    Reference::parse("A1:1A").expect_err("expected err");
    Reference::parse("A1::").expect_err("expected err");
    Reference::parse("-").expect_err("expected err");
}

#[test]
fn reference_test_parse_reference() {
    check_parse_reference();
    Reference::parse("text").expect_err("expected err");
    Reference::parse("some text").expect_err("expected err");
}

#[test]
fn lib_test_parse_reference() {
    check_parse_reference();
}

#[test]
fn column_name_rejects_letters_before_the_last_other_than_a() {
    assert!(matches!(try_column_name_to_usize("abx"), Err(SheetError::BadColumnName)));
    assert!(matches!(try_column_name_to_usize(""), Err(SheetError::BadColumnName)));
    assert!(matches!(try_column_name_to_usize("a1"), Err(SheetError::BadColumnName)));
    assert_eq!(try_column_name_to_usize("AAx").unwrap(), 76);
}

#[test]
fn column_names_round_trip_in_lower_case() {
    for name in ["A", "z", "AAB", "aaZ", "q"] {
        let i = column_name_to_usize(name);
        assert_eq!(usize_to_column_name(i), name.to_lowercase());
    }
    for i in 1..200usize {
        assert_eq!(column_name_to_usize(&usize_to_column_name(i)), i);
    }
}

#[test]
fn add_of_distance_lands_on_target() {
    let pairs = [
        (CellPointer(1, 1), CellPointer(1, 1)),
        (CellPointer(5, 100), CellPointer(2, 3)),
        (CellPointer(0, 0), CellPointer(70, 9)),
    ];
    for (k, m) in pairs {
        assert_eq!(k.add(k.distance(&m)), m);
    }
    assert_eq!(CellPointer(0, 3).try_add((-1, 0)), None);
}

#[test]
fn reference_rejects_empty_sides_and_non_ascii() {
    assert!(matches!(Reference::parse("A1:"), Err(SheetError::BadReference)));
    assert!(matches!(Reference::parse(":A1"), Err(SheetError::BadReference)));
    assert!(matches!(Reference::parse("Ä1"), Err(SheetError::BadReference)));
    assert!(matches!(Reference::parse("A"), Err(SheetError::BadReference)));
    assert!(matches!(Reference::parse("BA1"), Err(SheetError::BadReference)));
    assert_eq!(
        Reference::parse("a1:b2").unwrap(),
        Reference::BoundedRange(CellPointer(1, 1), CellPointer(2, 2))
    );
}

#[test]
fn cell_pointer_text_forms() {
    assert_eq!(CellPointer(28, 12).to_string(), "28-12");
    assert_eq!(CellPointer(28, 12).to_reference(), "AB12");
    assert_eq!(CellPointer::from_str("28-12").unwrap(), CellPointer(28, 12));
    assert_eq!(CellPointer::from_column_and_row(3, 4), CellPointer(3, 4));
    assert!(matches!(CellPointer::from_str("28-"), Err(SheetError::BadSerialization)));
    assert!(matches!(CellPointer::from_str("a-1"), Err(SheetError::BadSerialization)));
    assert!(matches!(CellPointer::from_str("1-2-3"), Err(SheetError::BadSerialization)));
    assert!(matches!(CellPointer::from_str("7"), Err(SheetError::BadSerialization)));
}
