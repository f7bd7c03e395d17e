use qvd::{match_symbols_with_indexes, match_symbols_with_rows, Fault, QvdError, Symbol};

fn texts(items: &[&str]) -> Vec<Option<String>> {
    items.iter().map(|s| Some(s.to_string())).collect()
}

#[test]
fn rows_pick_their_symbols() {
    let symbols = vec![Symbol::Integer(10), Symbol::String(b"b".to_vec()), Symbol::Double(3)];
    let column = match_symbols_with_rows("f", &symbols, &vec![2, 0, 0, 1]).unwrap();
    assert_eq!(
        vec![
            Symbol::Double(3),
            Symbol::Integer(10),
            Symbol::Integer(10),
            Symbol::String(b"b".to_vec()),
        ],
        column
    );
}

#[test]
fn negative_index_is_absent() {
    let symbols = vec![Symbol::Integer(10), Symbol::Integer(20)];
    let column = match_symbols_with_rows("f", &symbols, &vec![-1, 1, -2, 0, i64::MIN]).unwrap();
    assert_eq!(
        vec![
            Symbol::Absent,
            Symbol::Integer(20),
            Symbol::Absent,
            Symbol::Integer(10),
            Symbol::Absent,
        ],
        column
    );
    let column =
        match_symbols_with_indexes("f", &texts(&["a", "b"]), &vec![-1, 1, -2, 0]).unwrap();
    assert_eq!(vec![None, Some("b".to_string()), None, Some("a".to_string())], column);
}

#[test]
fn column_is_as_long_as_the_indices() {
    let symbols = texts(&["a", "b", "c"]);
    for n in 0..20usize {
        let pointers: Vec<i64> = (0..n).map(|k| (k % 4) as i64 - 1).collect();
        let column = match_symbols_with_indexes("f", &symbols, &pointers).unwrap();
        assert_eq!(n, column.len());
    }
}

#[test]
fn absent_symbol_is_picked_as_absent() {
    let column = match_symbols_with_rows("f", &vec![Symbol::Absent], &vec![0, 0, -1]).unwrap();
    assert_eq!(vec![Symbol::Absent, Symbol::Absent, Symbol::Absent], column);
    let column = match_symbols_with_indexes("f", &vec![None], &vec![0, -5, 0]).unwrap();
    assert_eq!(vec![None::<String>, None, None], column);
}

#[test]
fn index_past_the_table_is_refused() {
    let symbols = vec![Symbol::Integer(10), Symbol::Integer(20)];
    let expected = QvdError::FormatStructure {
        field: String::from("amount"),
        offset: 2,
        fault: Fault::IndexOutOfRange,
    };
    assert_eq!(
        Err(expected.clone()),
        match_symbols_with_rows("amount", &symbols, &vec![1, -1, 2, 5, 0])
    );
    assert_eq!(
        Err(expected),
        match_symbols_with_indexes("amount", &texts(&["a", "b"]), &vec![1, -1, i64::MAX, 5])
    );
    assert!(match_symbols_with_rows("amount", &symbols, &vec![1, -1, 1, 0]).is_ok());
}

#[test]
fn empty_table_leaves_rows_out() {
    let column = match_symbols_with_rows("f", &vec![], &vec![0, -1, 7, -3, 2]).unwrap();
    assert_eq!(vec![Symbol::Absent, Symbol::Absent], column);
    let column = match_symbols_with_indexes("f", &vec![], &vec![0, -1, 7, -3, 2]).unwrap();
    assert_eq!(vec![None::<String>, None], column);
    let column = match_symbols_with_indexes("f", &vec![], &vec![3, 4]).unwrap();
    assert_eq!(Vec::<Option<String>>::new(), column);
}

#[test]
fn no_indices_give_an_empty_column() {
    let column = match_symbols_with_rows("f", &vec![Symbol::Integer(1)], &vec![]).unwrap();
    assert_eq!(Vec::<Symbol>::new(), column);
}
