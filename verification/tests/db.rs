use jdr_rolls::db::next_migration;

#[test]
fn fresh_database_runs_first_migration() {
    assert_eq!(next_migration(0), Some(1));
}

#[test]
fn migrated_database_runs_nothing() {
    assert_eq!(next_migration(1), None);
    assert_eq!(next_migration(7), None);
    assert_eq!(next_migration(-1), None);
}

#[test]
fn migrations_reach_a_fixed_point() {
    let mut version: i64 = 0;
    let mut steps = 0;
    while let Some(next) = next_migration(version) {
        version = next;
        steps += 1;
    }
    assert_eq!(version, 1);
    assert_eq!(steps, 1);
}
