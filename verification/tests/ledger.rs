use jdr_rolls::splines::SolvedindexLedger;
use std::collections::HashSet;

#[test]
fn increasing_skips_solved_columns() {
    let mut ledger = SolvedindexLedger { solved_indices: HashSet::from([0, 1, 2, 4]), cur_valid_index: 0 };
    ledger.find_next_valid_index_increasing();
    assert_eq!(ledger.cur_valid_index, 3);
    ledger.find_next_valid_index_increasing();
    assert_eq!(ledger.cur_valid_index, 3);
    ledger.solved_indices.insert(3);
    ledger.find_next_valid_index_increasing();
    assert_eq!(ledger.cur_valid_index, 5);
}

#[test]
fn decreasing_skips_solved_columns() {
    let mut ledger = SolvedindexLedger { solved_indices: HashSet::from([9, 8, 6]), cur_valid_index: 9 };
    ledger.find_next_valid_index_decreasing();
    assert_eq!(ledger.cur_valid_index, 7);
    ledger.solved_indices.insert(7);
    ledger.find_next_valid_index_decreasing();
    assert_eq!(ledger.cur_valid_index, 5);
}
