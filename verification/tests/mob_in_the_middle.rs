use protohackers::mob_in_the_middle::rewrite_addresses;

const TONY: &str = "7YWHMfk9JZe0LM0g1ZauHuiSxhI";

#[test]
fn address_alone() {
    assert_eq!(rewrite_addresses("7F1u3wSD5RbOHQmupo9nx4TnhQ"), TONY);
}

#[test]
fn addresses_at_start_middle_end() {
    let line = "7iKDZEwPZSqIvDnHvVN2r0hUWXD5rHX Please pay the ticket price of 15 Boguscoins to one of these addresses: 7iKDZEwPZSqIvDnHvVN2r0hUWXD5rHX 7LOrwbDlS8NujgjddyogWgIM93MV5N2VR";
    let want = format!(
        "{} Please pay the ticket price of 15 Boguscoins to one of these addresses: {} {}",
        TONY, TONY, TONY
    );
    assert_eq!(rewrite_addresses(line), want);
}

#[test]
fn not_addresses() {
    // too short, too long, wrong first character, a non-alphanumeric character
    let short = format!("7{}", "a".repeat(24));
    let long = format!("7{}", "a".repeat(35));
    let other_start = format!("8{}", "a".repeat(26));
    let symbol = format!("7{}-{}", "a".repeat(12), "a".repeat(13));
    for w in [short, long, other_start, symbol] {
        assert_eq!(rewrite_addresses(&w), w);
    }
}

#[test]
fn length_limits() {
    let min = format!("7{}", "b".repeat(25));
    let max = format!("7{}", "b".repeat(34));
    assert_eq!(rewrite_addresses(&min), TONY);
    assert_eq!(rewrite_addresses(&max), TONY);
}

#[test]
fn line_end_is_part_of_the_last_word() {
    let line = format!("pay 7{}\n", "c".repeat(30));
    assert_eq!(rewrite_addresses(&line), line);
    let line = format!("pay 7{} now\n", "c".repeat(30));
    assert_eq!(rewrite_addresses(&line), format!("pay {} now\n", TONY));
}

#[test]
fn spaces_kept_and_idempotent() {
    let line = format!("  7{}  x ", "d".repeat(29));
    let once = rewrite_addresses(&line);
    assert_eq!(once, format!("  {}  x ", TONY));
    assert_eq!(rewrite_addresses(&once), once);
    assert_eq!(rewrite_addresses(""), "");
}
