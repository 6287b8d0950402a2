use systop::unitinfo::{names_from_xml, UnitGetError, UnitInterfaceInfoVec, UnitProps};

fn intro_doc() -> String {
    let mut doc = String::new();
    doc.push_str("<?xml version=\"1.0\" encoding=\"UTF-8\"?>\n");
    doc.push_str(
        "<!DOCTYPE node PUBLIC \"-//freedesktop//DTD D-BUS Object Introspection 1.0//EN\" ",
    );
    doc.push_str("\"http://www.freedesktop.org/standards/dbus/1.0/introspect.dtd\">\n");
    doc.push_str("<node>\n");
    doc.push_str("  <interface name=\"org.freedesktop.DBus.Peer\"/>\n");
    doc.push_str("  <node name=\"dbus_2eservice\"/>\n");
    doc.push_str("  <node name=\"init_2escope\"/>\n");
    doc.push_str("  <node name=\"basic_2etarget\"/>\n");
    doc.push_str("</node>\n");
    doc
}

fn props(can_freeze: bool, mode: &str, id: &str) -> UnitProps {
    UnitProps {
        can_freeze,
        collect_mode: mode.to_string(),
        id: id.to_string(),
    }
}

#[test]
fn names_from_introspection_doc() {
    let names = names_from_xml(intro_doc()).unwrap();
    assert_eq!(names, vec!["dbus_2eservice", "init_2escope", "basic_2etarget"]);
}

#[test]
fn outer_node_without_name_not_collected() {
    let names = names_from_xml("<node><node name=\"a\"/></node>".to_string()).unwrap();
    assert_eq!(names, vec!["a"]);
}

#[test]
fn other_elements_ignored() {
    let names =
        names_from_xml("<node><interface name=\"x\"/><node name=\"b\"></node></node>".to_string())
            .unwrap();
    assert_eq!(names, vec!["b"]);
}

#[test]
fn comments_are_skipped() {
    let names = names_from_xml(
        "<!-- <node name=\"ghost\"/> --><node name=\"real\"/>".to_string(),
    )
    .unwrap();
    assert_eq!(names, vec!["real"]);
}

#[test]
fn unterminated_tag_is_an_error() {
    assert_eq!(
        names_from_xml("<node name=\"a\"".to_string()).unwrap_err(),
        UnitGetError::XmlError
    );
}

#[test]
fn missing_quote_is_an_error() {
    assert_eq!(
        names_from_xml("<node name=a/>".to_string()).unwrap_err(),
        UnitGetError::XmlError
    );
}

#[test]
fn single_quoted_values_accepted() {
    let names = names_from_xml("<node name='q.service'/>".to_string()).unwrap();
    assert_eq!(names, vec!["q.service"]);
}

#[test]
fn unit_refresh_builds_records() {
    let v = UnitInterfaceInfoVec::new();
    let got = v
        .refresh(
            Some(intro_doc()),
            vec![
                Some(props(true, "inactive", "dbus.service")),
                Some(props(false, "inactive", "init.scope")),
                Some(props(false, "loading", "basic.target")),
            ],
        )
        .unwrap();
    assert!(!got.is_empty());
    let units = got.iter();
    assert_eq!(units.len(), 3);
    assert_eq!(units[0].originunit, "dbus_2eservice");
    assert!(units[0].can_freeze);
    assert_eq!(units[1].collect_mode, "inactive");
    assert_eq!(units[2].id, "basic.target");
}

#[test]
fn unit_refresh_third_failure_aborts() {
    // build a populated inventory first
    let empty = UnitInterfaceInfoVec::new();
    let stored = empty
        .refresh(
            Some("<node name=\"old\"/>".to_string()),
            vec![Some(props(false, "inactive", "old.service"))],
        )
        .unwrap();
    assert_eq!(stored.iter().len(), 1);
    // the third of three property reads fails: the whole refresh fails
    let r = stored.refresh(
        Some(intro_doc()),
        vec![
            Some(props(true, "inactive", "dbus.service")),
            Some(props(false, "inactive", "init.scope")),
            None,
        ],
    );
    assert_eq!(r.unwrap_err(), UnitGetError::ZbusThreadError);
    // the stored list is unchanged
    assert_eq!(stored.iter().len(), 1);
    assert_eq!(stored.iter()[0].originunit, "old");
}

#[test]
fn unit_refresh_without_introspection_fails() {
    let v = UnitInterfaceInfoVec::new();
    assert_eq!(
        v.refresh(None, Vec::new()).unwrap_err(),
        UnitGetError::ZbusThreadError
    );
}

#[test]
fn unit_refresh_bad_document_fails() {
    let v = UnitInterfaceInfoVec::new();
    assert_eq!(
        v.refresh(Some("<node".to_string()), Vec::new()).unwrap_err(),
        UnitGetError::XmlError
    );
}

#[test]
fn unit_refresh_short_transcript_fails() {
    let v = UnitInterfaceInfoVec::new();
    let r = v.refresh(
        Some("<node name=\"a\"/><node name=\"b\"/>".to_string()),
        vec![Some(props(false, "inactive", "a"))],
    );
    assert_eq!(r.unwrap_err(), UnitGetError::ZbusThreadError);
}
