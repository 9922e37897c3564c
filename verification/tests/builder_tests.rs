use phonebook::builder::{build_records, resolve_columns, ConfigError};
use phonebook::record::Record;
use phonebook::sysinfo::{Host, HostMap, SysInfo};

fn strings(v: &[&str]) -> Vec<String> {
    v.iter().map(|s| String::from(*s)).collect()
}

fn rows_of(v: &[&[&str]]) -> Vec<Vec<String>> {
    v.iter().map(|r| strings(r)).collect()
}

fn empty_hosts() -> HostMap {
    SysInfo { hosts: Vec::new() }.create_host_map()
}

fn hosts_with(names_ips: &[(&str, &str)]) -> HostMap {
    let hosts = names_ips
        .iter()
        .map(|(n, i)| Host { name: String::from(*n), ip: String::from(*i) })
        .collect();
    SysInfo { hosts }.create_host_map()
}

fn names_of(recs: &[Record]) -> Vec<String> {
    recs.iter().map(|r| r.name_for_entry()).collect()
}

#[test]
fn resolution_case_and_order() {
    // mixed case resolves exactly as the lower-case header row does
    let upper = strings(&["Telephone", "Name", "First_Name", "Callsign"]);
    let lower = strings(&["telephone", "name", "first_name", "callsign"]);
    let cu = resolve_columns(&upper).unwrap();
    let cl = resolve_columns(&lower).unwrap();
    assert_eq!(cu.phone, cl.phone);
    assert_eq!(cu.last_name, cl.last_name);
    assert_eq!(cu.first_name, cl.first_name);
    assert_eq!(cu.callsign, cl.callsign);
    assert_eq!(cu.phone, 0);
    assert_eq!(cu.last_name, 1);
    assert_eq!(cu.first_name, 2);
    assert_eq!(cu.callsign, 3);
    assert!(cu.privacy.is_none());

    // the same roster in another column order builds the same record
    let h1 = strings(&["Telephone", "Name", "First_Name", "Callsign"]);
    let r1 = rows_of(&[&["100", "Doe", "John", "ABC"]]);
    let h2 = strings(&["first_name", "callsign", "telephone", "name"]);
    let r2 = rows_of(&[&["John", "ABC", "100", "Doe"]]);
    let b1 = build_records(&r1, &h1, &empty_hosts()).unwrap();
    let b2 = build_records(&r2, &h2, &empty_hosts()).unwrap();
    assert_eq!(names_of(&b1), names_of(&b2));
    assert_eq!(b1[0].phonenumber, b2[0].phonenumber);
}

#[test]
fn duplicate_header_last_wins() {
    let headers = strings(&["name", "first_name", "callsign", "telephone", "Name"]);
    let cm = resolve_columns(&headers).unwrap();
    assert_eq!(cm.last_name, 4);
}

#[test]
fn missing_column_is_config_error() {
    let headers = strings(&["name", "first_name", "callsign"]);
    let rows = rows_of(&[&["Doe", "John", "ABC"]]);
    let r = build_records(&rows, &headers, &empty_hosts());
    assert_eq!(r.unwrap_err(), ConfigError::MissingColumn);
}

#[test]
fn privacy_column_filters_rows() {
    let headers = strings(&["name", "first_name", "callsign", "telephone", "privat"]);
    let rows = rows_of(&[
        &["A", "a", "c1", "1", "Y"],
        &["B", "b", "c2", "2", "y "],
        &["C", "c", "c3", "3", " Y"],
        &["D", "d", "c4", "4", "n"],
        &["E", "e", "c5", "5", ""],
    ]);
    let recs = build_records(&rows, &headers, &empty_hosts()).unwrap();
    let names = names_of(&recs);
    assert_eq!(names, vec!["D, d (c4)", "E, e (c5)"]);
}

#[test]
fn no_privacy_column_keeps_all_rows() {
    let headers = strings(&["name", "first_name", "callsign", "telephone"]);
    let rows = rows_of(&[&["A", "a", "c1", "1"], &["B", "b", "c2", "2"]]);
    let recs = build_records(&rows, &headers, &empty_hosts()).unwrap();
    assert_eq!(recs.len(), 2);
}

#[test]
fn host_map_keeps_numeric_names_only() {
    let m = hosts_with(&[("100", "10.0.0.1"), ("router1", "10.0.0.2")]);
    assert!(m.contains(&String::from("100")));
    assert!(!m.contains(&String::from("router1")));
    assert!(!m.contains(&String::from("10.0.0.1")));
}

#[test]
fn empty_host_name_is_not_an_extension() {
    let m = hosts_with(&[("", "10.0.0.9")]);
    assert!(!m.contains(&String::from("")));
}

#[test]
fn active_extension_marks_record() {
    let headers = strings(&["name", "first_name", "callsign", "telephone"]);
    let rows = rows_of(&[&["Doe", "John", "ABC", "100"], &["Roe", "Jane", "DEF", "200"]]);
    let m = hosts_with(&[("100", "10.0.0.1"), ("router1", "10.0.0.2")]);
    let recs = build_records(&rows, &headers, &m).unwrap();
    let doe = recs.iter().find(|r| r.lastname == "Doe").unwrap();
    let roe = recs.iter().find(|r| r.lastname == "Roe").unwrap();
    assert!(doe.isactive);
    assert_eq!(doe.name_for_entry(), "*Doe, John (ABC)");
    assert!(!roe.isactive);
    assert_eq!(roe.name_for_entry(), "Roe, Jane (DEF)");
}

#[test]
fn records_sorted_by_display_name() {
    let headers = strings(&["name", "first_name", "callsign", "telephone"]);
    let rows = rows_of(&[
        &["", "", "Zed", "1"],
        &["", "", "Amy", "2"],
        &["", "", "Bob", "3"],
    ]);
    let recs = build_records(&rows, &headers, &empty_hosts()).unwrap();
    let names = names_of(&recs);
    assert_eq!(names, vec!["Amy", "Bob", "Zed"]);
}

#[test]
fn is_numeric_only_checks_ascii_digits() {
    assert!(phonebook::sysinfo::is_numeric_only("0123456789"));
    assert!(phonebook::sysinfo::is_numeric_only(""));
    assert!(!phonebook::sysinfo::is_numeric_only("12a3"));
    assert!(!phonebook::sysinfo::is_numeric_only("router1"));
}

#[test]
fn empty_roster_builds_no_records() {
    let headers = strings(&["name", "first_name", "callsign", "telephone"]);
    let recs = build_records(&Vec::new(), &headers, &empty_hosts()).unwrap();
    assert!(recs.is_empty());
}

#[test]
fn all_empty_fields_still_build_a_record() {
    let headers = strings(&["name", "first_name", "callsign", "telephone"]);
    let rows = rows_of(&[&["", "", "", ""]]);
    let recs = build_records(&rows, &headers, &empty_hosts()).unwrap();
    assert_eq!(recs.len(), 1);
    assert_eq!(recs[0].name_for_entry(), "");
}
