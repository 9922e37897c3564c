use phonebook::exporter::{export_phonebook, xml_escape};
use phonebook::record::Record;

fn rec(last: &str, first: &str, call: &str, phone: &str, active: bool) -> Record {
    Record {
        firstname: String::from(first),
        lastname: String::from(last),
        callsign: String::from(call),
        phonenumber: String::from(phone),
        isactive: active,
    }
}

#[test]
fn export_single_record() {
    let records = vec![rec("Doe", "John", "ABC", "100", false)];
    let doc = export_phonebook(&records);
    let expected = "<?xml version=\"1.0\" encoding=\"UTF-8\"?>\n<IPPhoneDirectory>\n  <DirectoryEntry>\n    <Name>Doe, John (ABC)</Name>\n    <Telephone>100@100.local.mesh</Telephone>\n    <Telephone>100</Telephone>\n  </DirectoryEntry>\n</IPPhoneDirectory>\n";
    assert_eq!(doc, expected);
}

#[test]
fn export_empty_directory() {
    let doc = export_phonebook(&Vec::new());
    assert_eq!(
        doc,
        "<?xml version=\"1.0\" encoding=\"UTF-8\"?>\n<IPPhoneDirectory>\n</IPPhoneDirectory>\n"
    );
}

#[test]
fn escape_markup_characters() {
    assert_eq!(xml_escape("a&b"), "a&amp;b");
    assert_eq!(xml_escape("<x>"), "&lt;x&gt;");
    assert_eq!(xml_escape("plain"), "plain");
    assert_eq!(xml_escape(""), "");
}

#[test]
fn export_escapes_text_content() {
    let records = vec![rec("A&B", "", "<op>", "1", false)];
    let doc = export_phonebook(&records);
    assert!(doc.contains("<Name>A&amp;B (&lt;op&gt;)</Name>"));
    assert!(!doc.contains("<Name>A&B"));
}

#[test]
fn export_keeps_record_order() {
    let records = vec![
        rec("", "", "Amy", "1", false),
        rec("", "", "Bob", "2", false),
        rec("", "", "Zed", "3", false),
    ];
    let doc = export_phonebook(&records);
    let amy = doc.find("<Name>Amy</Name>").unwrap();
    let bob = doc.find("<Name>Bob</Name>").unwrap();
    let zed = doc.find("<Name>Zed</Name>").unwrap();
    assert!(amy < bob && bob < zed);
}

#[test]
fn reparse_recovers_entries() {
    let records = vec![
        rec("Doe", "John", "A&C", "100", true),
        rec("", "", "", "2<0>0", false),
    ];
    let doc = export_phonebook(&records);

    let mut reader = quick_xml::Reader::from_str(&doc);
    let mut entries: Vec<(String, Vec<String>)> = Vec::new();
    let mut in_name = false;
    let mut in_phone = false;
    loop {
        match reader.read_event().unwrap() {
            quick_xml::events::Event::Start(e) => {
                let name = e.local_name().into_inner().to_string();
                if name == "DirectoryEntry" {
                    entries.push((String::new(), Vec::new()));
                } else if name == "Name" {
                    in_name = true;
                } else if name == "Telephone" {
                    in_phone = true;
                    entries.last_mut().unwrap().1.push(String::new());
                }
            }
            quick_xml::events::Event::End(_) => {
                in_name = false;
                in_phone = false;
            }
            quick_xml::events::Event::Text(t) => {
                let raw = t.into_inner().into_owned();
                let text = quick_xml::escape::unescape(&raw).unwrap().into_owned();
                if in_name {
                    entries.last_mut().unwrap().0.push_str(&text);
                } else if in_phone {
                    entries.last_mut().unwrap().1.last_mut().unwrap().push_str(&text);
                }
            }
            quick_xml::events::Event::GeneralRef(e) => {
                let raw = format!("&{};", e.into_inner());
                let text = quick_xml::escape::unescape(&raw).unwrap().into_owned();
                if in_name {
                    entries.last_mut().unwrap().0.push_str(&text);
                } else if in_phone {
                    entries.last_mut().unwrap().1.last_mut().unwrap().push_str(&text);
                }
            }
            quick_xml::events::Event::Eof => break,
            _ => {}
        }
    }

    assert_eq!(entries.len(), records.len());
    for (entry, record) in entries.iter().zip(records.iter()) {
        assert_eq!(entry.0, record.name_for_entry());
        assert_eq!(entry.1.len(), 2);
        assert_eq!(
            entry.1[0],
            format!("{}@{}.local.mesh", record.phonenumber, record.phonenumber)
        );
        assert_eq!(entry.1[1], record.phonenumber);
    }
}
