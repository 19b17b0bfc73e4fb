use bts::radio::{credential_header, credited_source, sends_per_entry};

#[test]
fn credit_header() {
    assert_eq!(
        credential_header("plasma.glsl"),
        "\n/****\nRadio bonzo\n\nCredit: \n plasma.glsl \n****/\n"
    );
}

#[test]
fn credit_goes_after_the_first_line() {
    let src = "#version 410 core\nvoid main(){}\n";
    let r = credited_source(src, "a.glsl");
    assert_eq!(
        r,
        "#version 410 core\n\n/****\nRadio bonzo\n\nCredit: \n a.glsl \n****/\nvoid main(){}\n"
    );
    let r = credited_source("\n", "n");
    assert_eq!(r, "\n\n/****\nRadio bonzo\n\nCredit: \n n \n****/\n");
}

#[test]
fn sends_per_entry_counts_whole_intervals() {
    assert_eq!(sends_per_entry(10000, 500), 20);
    assert_eq!(sends_per_entry(999, 500), 1);
    assert_eq!(sends_per_entry(0, 300), 0);
}
