use phonebook::record::Record;

fn rec(last: &str, first: &str, call: &str, phone: &str, active: bool) -> Record {
    Record {
        firstname: String::from(first),
        lastname: String::from(last),
        callsign: String::from(call),
        phonenumber: String::from(phone),
        isactive: active,
    }
}

#[test]
fn name_all_empty() {
    assert_eq!(rec("", "", "", "", false).name_for_entry(), "");
    // no marker is put on an empty label, even for an active record
    assert_eq!(rec("", "", "", "", true).name_for_entry(), "");
}

#[test]
fn name_phone_only() {
    assert_eq!(rec("", "", "", "100", false).name_for_entry(), "100");
    assert_eq!(rec("", "", "", "100", true).name_for_entry(), "*100");
}

#[test]
fn name_callsign_only() {
    assert_eq!(rec("", "", "ABC", "100", false).name_for_entry(), "ABC");
    assert_eq!(rec("", "", "ABC", "", true).name_for_entry(), "*ABC");
}

#[test]
fn name_firstname_no_lastname() {
    assert_eq!(rec("", "John", "ABC", "100", false).name_for_entry(), "John (ABC)");
    assert_eq!(rec("", "John", "", "", true).name_for_entry(), "*John ()");
}

#[test]
fn name_lastname_no_firstname() {
    assert_eq!(rec("Doe", "", "ABC", "100", false).name_for_entry(), "Doe (ABC)");
    assert_eq!(rec("Doe", "", "", "", true).name_for_entry(), "*Doe ()");
}

#[test]
fn name_full() {
    assert_eq!(rec("Doe", "John", "ABC", "100", false).name_for_entry(), "Doe, John (ABC)");
    assert_eq!(rec("Doe", "John", "ABC", "100", true).name_for_entry(), "*Doe, John (ABC)");
}
