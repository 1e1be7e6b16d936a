use metarepo::upgrade::{decide_upgrades, second_line, OutdatedRow, UpgradeStep};

fn row(name: &str, current: &str, wanted: &str, latest: &str) -> OutdatedRow {
    OutdatedRow::new(
        String::from(name),
        String::from(current),
        String::from(wanted),
        String::from(latest),
    )
}

#[test]
fn outdated_row_upgrades_and_warns() {
    let rows = vec![row("left-pad", "1.0.0", "1.2.0", "2.0.0")];
    let steps = decide_upgrades(&rows);
    assert_eq!(
        steps,
        vec![
            UpgradeStep::Upgrade {
                name: String::from("left-pad"),
                version: String::from("1.2.0"),
            },
            UpgradeStep::MajorWarning {
                name: String::from("left-pad"),
                latest: String::from("2.0.0"),
            },
        ]
    );
}

#[test]
fn up_to_date_row_does_nothing() {
    let rows = vec![row("left-pad", "1.2.0", "1.2.0", "1.2.0")];
    assert_eq!(decide_upgrades(&rows), vec![]);
}

#[test]
fn upgrade_targets_wanted_never_latest() {
    let rows = vec![row("chalk", "2.3.0", "2.4.1", "5.0.0")];
    let steps = decide_upgrades(&rows);
    assert_eq!(
        steps,
        vec![
            UpgradeStep::Upgrade { name: String::from("chalk"), version: String::from("2.4.1") },
            UpgradeStep::MajorWarning {
                name: String::from("chalk"),
                latest: String::from("5.0.0"),
            },
        ]
    );
}

#[test]
fn warning_without_upgrade() {
    let rows = vec![row("chalk", "2.4.1", "2.4.1", "3.0.0")];
    let steps = decide_upgrades(&rows);
    assert_eq!(
        steps,
        vec![UpgradeStep::MajorWarning {
            name: String::from("chalk"),
            latest: String::from("3.0.0"),
        }]
    );
}

#[test]
fn rows_decided_in_order() {
    let rows = vec![
        row("a", "1.0.0", "1.1.0", "1.1.0"),
        row("b", "1.0.0", "1.0.0", "1.0.0"),
        row("c", "0.1.0", "0.2.0", "0.2.0"),
    ];
    let steps = decide_upgrades(&rows);
    assert_eq!(
        steps,
        vec![
            UpgradeStep::Upgrade { name: String::from("a"), version: String::from("1.1.0") },
            UpgradeStep::Upgrade { name: String::from("c"), version: String::from("0.2.0") },
        ]
    );
}

#[test]
fn second_line_of_report() {
    assert_eq!(second_line("first\nsecond\nthird"), Some(String::from("second")));
    assert_eq!(second_line("first\nsecond"), Some(String::from("second")));
    assert_eq!(second_line("first\n"), Some(String::from("")));
    assert_eq!(second_line("\nsecond"), Some(String::from("second")));
    assert_eq!(second_line("only one line"), None);
    assert_eq!(second_line(""), None);
}
