use nasr2sct::aixm::parse::{
    contains, extract_gml_id, find_element, get_airport, get_airport_info, get_attribute,
    get_gml_link, get_navaid, get_navaid_info, get_unit,
};
use nasr2sct::aixm::{Airport, AirportBuilder, NavaidBuilder, NavaidType, Unit, UnitBuilder};
use nasr2sct::error::DataError;
use nasr2sct::geo::{LatLon, UNITS_PER_DEGREE};
use nasr2sct::xml::EventReader;

const DEGREE: i64 = UNITS_PER_DEGREE as i64;

fn unit(designator: &str, ty: &str, airport: &str) -> String {
    format!(
        "<aixm:Unit gml:id=\"U_{d}\"><aixm:timeSlice><aixm:UnitTimeSlice>\
         <aixm:designator>{d}</aixm:designator><aixm:type>{t}</aixm:type>\
         <aixm:airportLocation xlink:href=\"#xpointer(//aixm:AirportHeliport[@gml:id='{a}'])\"/>\
         </aixm:UnitTimeSlice></aixm:timeSlice></aixm:Unit>",
        d = designator,
        t = ty,
        a = airport
    )
}

fn airport(id: &str, designator: &str, pos: &str) -> String {
    format!(
        "<aixm:AirportHeliport gml:id=\"{i}\"><aixm:timeSlice><aixm:AirportHeliportTimeSlice>\
         <aixm:designator>{d}</aixm:designator><aixm:ARP><aixm:ElevatedPoint>\
         <gml:pos>{p}</gml:pos></aixm:ElevatedPoint></aixm:ARP>\
         </aixm:AirportHeliportTimeSlice></aixm:timeSlice></aixm:AirportHeliport>",
        i = id,
        d = designator,
        p = pos
    )
}

fn navaid(designator: &str, ty: &str, pos: &str, low: &str) -> String {
    format!(
        "<aixm:Navaid gml:id=\"N_{d}\"><aixm:timeSlice><aixm:NavaidTimeSlice>\
         <aixm:designator>{d}</aixm:designator><aixm:type>{t}</aixm:type>\
         <aixm:location><aixm:ElevatedPoint><gml:pos>{p}</gml:pos></aixm:ElevatedPoint>\
         </aixm:location><aixm:extension><nav:NavaidExtension>\
         <nav:artccIdForLowAltitude>{l}</nav:artccIdForLowAltitude>\
         </nav:NavaidExtension></aixm:extension></aixm:NavaidTimeSlice></aixm:timeSlice>\
         </aixm:Navaid>",
        d = designator,
        t = ty,
        p = pos,
        l = low
    )
}

fn document(members: &[String]) -> String {
    let mut doc = String::from("<?xml version=\"1.0\" encoding=\"UTF-8\"?>\n<faa:Members>\n");
    for m in members {
        doc.push_str("  <faa:Member>");
        doc.push_str(m);
        doc.push_str("</faa:Member>\n");
    }
    doc.push_str("</faa:Members>\n");
    doc
}

fn filter(names: &[&str]) -> Vec<String> {
    names.iter().map(|n| n.to_string()).collect()
}

fn ids(airports: &[Airport]) -> Vec<String> {
    airports.iter().map(|a| a.id.clone()).collect()
}

#[test]
fn unit_with_all_fields_is_read() {
    let doc = document(&[unit("ZHU", "ARTCC", "APT1")]);
    let mut reader = EventReader::from_str(&doc);
    assert!(find_element(&mut reader, "aixm:Unit").unwrap().is_some());
    let got = get_unit(&mut reader).unwrap();
    assert_eq!(
        got,
        Unit {
            designator: "ZHU".to_string(),
            ty: "ARTCC".to_string(),
            airport_location: "APT1".to_string(),
        }
    );
    assert!(find_element(&mut reader, "aixm:Unit").unwrap().is_none());
}

#[test]
fn unit_that_lacks_a_field_is_skipped_and_the_next_is_read() {
    let lacking = "<aixm:Unit><aixm:designator>ZAB</aixm:designator>\
                   <aixm:airportLocation xlink:href=\"x[@gml:id='APT9']\"/></aixm:Unit>"
        .to_string();
    let doc = document(&[lacking, unit("ZHU", "ARTCC", "APT1")]);
    let mut reader = EventReader::from_str(&doc);
    assert!(find_element(&mut reader, "aixm:Unit").unwrap().is_some());
    assert!(matches!(get_unit(&mut reader), Err(DataError::NotYielded)));
    assert!(find_element(&mut reader, "aixm:Unit").unwrap().is_some());
    let got = get_unit(&mut reader).unwrap();
    assert_eq!(got.designator, "ZHU");
    assert_eq!(got.ty, "ARTCC");
    assert_eq!(got.airport_location, "APT1");
}

#[test]
fn unit_lacking_each_field_in_turn_is_skipped() {
    let no_designator = "<aixm:Unit><aixm:type>ARTCC</aixm:type>\
                         <aixm:airportLocation xlink:href=\"x[@gml:id='A']\"/></aixm:Unit>";
    let no_type = "<aixm:Unit><aixm:designator>ZHU</aixm:designator>\
                   <aixm:airportLocation xlink:href=\"x[@gml:id='A']\"/></aixm:Unit>";
    let no_location = "<aixm:Unit><aixm:designator>ZHU</aixm:designator>\
                       <aixm:type>ARTCC</aixm:type></aixm:Unit>";
    for doc in [no_designator, no_type, no_location] {
        let mut reader = EventReader::from_str(doc);
        assert!(find_element(&mut reader, "aixm:Unit").unwrap().is_some());
        assert!(matches!(get_unit(&mut reader), Err(DataError::NotYielded)));
    }
}

#[test]
fn unit_whose_link_names_no_identifier_is_skipped() {
    let no_marker = "<aixm:Unit><aixm:designator>ZHU</aixm:designator><aixm:type>ARTCC</aixm:type>\
                     <aixm:airportLocation xlink:href=\"#somewhere\"/></aixm:Unit>";
    let no_link = "<aixm:Unit><aixm:designator>ZHU</aixm:designator><aixm:type>ARTCC</aixm:type>\
                   <aixm:airportLocation/></aixm:Unit>";
    for doc in [no_marker, no_link] {
        let mut reader = EventReader::from_str(doc);
        assert!(find_element(&mut reader, "aixm:Unit").unwrap().is_some());
        assert!(matches!(get_unit(&mut reader), Err(DataError::NotYielded)));
    }
}

#[test]
fn unit_takes_the_last_of_several_values() {
    let doc = "<aixm:Unit><aixm:designator>OLD</aixm:designator><aixm:type>TWR</aixm:type>\
               <aixm:airportLocation xlink:href=\"x[@gml:id='A']\"/>\
               <aixm:designator>NEW</aixm:designator><aixm:type>ARTCC</aixm:type>\
               <aixm:airportLocation xlink:href=\"x[@gml:id='B']\"/></aixm:Unit>";
    let mut reader = EventReader::from_str(doc);
    assert!(find_element(&mut reader, "aixm:Unit").unwrap().is_some());
    let got = get_unit(&mut reader).unwrap();
    assert_eq!(got.designator, "NEW");
    assert_eq!(got.ty, "ARTCC");
    assert_eq!(got.airport_location, "B");
}

#[test]
fn unit_text_has_its_escapes_resolved() {
    let doc = "<aixm:Unit><aixm:designator>A&amp;B &lt;1&gt;</aixm:designator>\
               <aixm:type>ARTCC</aixm:type>\
               <aixm:airportLocation xlink:href=\"x[@gml:id=&apos;Q&amp;A&apos;]\"/></aixm:Unit>";
    let mut reader = EventReader::from_str(doc);
    assert!(find_element(&mut reader, "aixm:Unit").unwrap().is_some());
    let got = get_unit(&mut reader).unwrap();
    assert_eq!(got.designator, "A&B <1>");
    assert_eq!(got.airport_location, "Q&A");
}

#[test]
fn unit_cut_short_is_an_error() {
    let doc = "<aixm:Unit><aixm:designator>ZHU</aixm:designator><aixm:type>ARTCC</aixm:type>";
    let mut reader = EventReader::from_str(doc);
    assert!(find_element(&mut reader, "aixm:Unit").unwrap().is_some());
    match get_unit(&mut reader) {
        Err(DataError::XML { quick_xml: quick_xml::Error::UnexpectedEof(what) }) => {
            assert_eq!(what, "EOF")
        }
        other => panic!("{:?}", other),
    }
}

#[test]
fn unit_with_a_text_cut_short_is_an_error() {
    let doc = "<aixm:Unit><aixm:designator>ZHU";
    let mut reader = EventReader::from_str(doc);
    assert!(find_element(&mut reader, "aixm:Unit").unwrap().is_some());
    assert!(matches!(get_unit(&mut reader), Err(DataError::XML { .. })));
}

#[test]
fn unit_with_a_wrong_end_tag_is_an_error() {
    let doc = "<aixm:Unit><aixm:other></aixm:wrong></aixm:Unit>";
    let mut reader = EventReader::from_str(doc);
    assert!(find_element(&mut reader, "aixm:Unit").unwrap().is_some());
    assert!(matches!(
        get_unit(&mut reader),
        Err(DataError::XML { quick_xml: quick_xml::Error::EndEventMismatch { .. } })
    ));
}

#[test]
fn text_of_an_element_ends_at_its_own_end_tag() {
    let doc = "<aixm:Unit><aixm:designator>X<aixm:designator>Y</aixm:designator>Z</aixm:designator>\
               <aixm:type>ARTCC</aixm:type>\
               <aixm:airportLocation xlink:href=\"x[@gml:id='A']\"/></aixm:Unit>";
    let mut reader = EventReader::from_str(doc);
    assert!(find_element(&mut reader, "aixm:Unit").unwrap().is_some());
    let got = get_unit(&mut reader).unwrap();
    assert_eq!(got.designator, "X");
    assert_eq!(got.ty, "ARTCC");
}

#[test]
fn empty_element_has_the_empty_text() {
    let doc = "<aixm:Unit><aixm:designator></aixm:designator><aixm:type>ARTCC</aixm:type>\
               <aixm:airportLocation xlink:href=\"x[@gml:id='A']\"/></aixm:Unit>";
    let mut reader = EventReader::from_str(doc);
    assert!(find_element(&mut reader, "aixm:Unit").unwrap().is_some());
    let got = get_unit(&mut reader).unwrap();
    assert_eq!(got.designator, "");
}

#[test]
fn element_that_starts_with_a_child_has_the_empty_text() {
    let doc = "<aixm:Unit><aixm:designator><b>inner</b>after</aixm:designator>\
               <aixm:type>ARTCC</aixm:type>\
               <aixm:airportLocation xlink:href=\"x[@gml:id='A']\"/></aixm:Unit>";
    let mut reader = EventReader::from_str(doc);
    assert!(find_element(&mut reader, "aixm:Unit").unwrap().is_some());
    let got = get_unit(&mut reader).unwrap();
    assert_eq!(got.designator, "");
    assert_eq!(got.airport_location, "A");
}

#[test]
fn units_inside_other_elements_are_found() {
    let doc = "<a><b><aixm:Unit><aixm:designator>ZHU</aixm:designator></aixm:Unit></b>\
               <!-- a comment --><![CDATA[<aixm:Unit>]]>\
               <aixm:Unit><aixm:designator>ZFW</aixm:designator><aixm:type>ARTCC</aixm:type>\
               <aixm:airportLocation xlink:href=\"x[@gml:id='A']\"/></aixm:Unit></a>";
    let mut reader = EventReader::from_str(doc);
    assert!(find_element(&mut reader, "aixm:Unit").unwrap().is_some());
    assert!(matches!(get_unit(&mut reader), Err(DataError::NotYielded)));
    assert!(find_element(&mut reader, "aixm:Unit").unwrap().is_some());
    assert_eq!(get_unit(&mut reader).unwrap().designator, "ZFW");
    assert!(find_element(&mut reader, "aixm:Unit").unwrap().is_none());
}

#[test]
fn airport_position_is_longitude_then_latitude() {
    let doc = document(&[airport("AH_0000001", "IAH", "-81.0 31.0")]);
    let mut reader = EventReader::from_str(&doc);
    let start = find_element(&mut reader, "aixm:AirportHeliport").unwrap().unwrap();
    let got = get_airport(&mut reader, &start, "aixm:AirportHeliport".len()).unwrap();
    assert_eq!(got.id, "AH_0000001");
    assert_eq!(got.designator, "IAH");
    assert_eq!(got.latlon, LatLon(31 * DEGREE, -81 * DEGREE));
}

#[test]
fn airport_without_designator_has_an_empty_one() {
    let doc = "<aixm:AirportHeliport gml:id=\"A1\"><gml:pos>-81.0 31.0</gml:pos></aixm:AirportHeliport>";
    let mut reader = EventReader::from_str(doc);
    let start = find_element(&mut reader, "aixm:AirportHeliport").unwrap().unwrap();
    let got = get_airport(&mut reader, &start, "aixm:AirportHeliport".len()).unwrap();
    assert_eq!(got.id, "A1");
    assert_eq!(got.designator, "");
}

#[test]
fn airport_without_position_or_identifier_is_skipped() {
    let no_position = "<aixm:AirportHeliport gml:id=\"A1\"><aixm:designator>IAH</aixm:designator></aixm:AirportHeliport>";
    let no_id = "<aixm:AirportHeliport><aixm:designator>IAH</aixm:designator><gml:pos>-81.0 31.0</gml:pos></aixm:AirportHeliport>";
    for doc in [no_position, no_id] {
        let mut reader = EventReader::from_str(doc);
        let start = find_element(&mut reader, "aixm:AirportHeliport").unwrap().unwrap();
        assert!(matches!(
            get_airport(&mut reader, &start, "aixm:AirportHeliport".len()),
            Err(DataError::NotYielded)
        ));
    }
}

#[test]
fn airport_with_a_position_that_is_no_two_numbers_is_an_error() {
    let doc = document(&[airport("A1", "IAH", "north of here")]);
    let mut reader = EventReader::from_str(&doc);
    let start = find_element(&mut reader, "aixm:AirportHeliport").unwrap().unwrap();
    match get_airport(&mut reader, &start, "aixm:AirportHeliport".len()) {
        Err(DataError::LatLon { text }) => assert_eq!(text, "north of here"),
        other => panic!("{:?}", other),
    }
}

#[test]
fn airport_cut_short_is_an_error() {
    let doc = "<aixm:AirportHeliport gml:id=\"A1\"><gml:pos>-81.0 31.0</gml:pos>";
    let mut reader = EventReader::from_str(doc);
    let start = find_element(&mut reader, "aixm:AirportHeliport").unwrap().unwrap();
    assert!(matches!(
        get_airport(&mut reader, &start, "aixm:AirportHeliport".len()),
        Err(DataError::XML { quick_xml: quick_xml::Error::UnexpectedEof(_) })
    ));
}

#[test]
fn airports_of_a_centre_unit_first() {
    let doc = document(&[
        unit("ZHU", "ARTCC", "APT1"),
        airport("APT1", "IAH", "-95.34 29.98"),
        airport("APT2", "DFW", "-97.04 32.90"),
    ]);
    let mut reader = EventReader::from_str(&doc);
    let got = get_airport_info(&mut reader, &filter(&["ZHU"])).unwrap();
    assert_eq!(ids(&got), vec!["APT1".to_string()]);
    assert_eq!(got[0].designator, "IAH");
}

#[test]
fn airports_of_a_centre_airport_first() {
    let doc = document(&[
        airport("APT1", "IAH", "-95.34 29.98"),
        airport("APT2", "DFW", "-97.04 32.90"),
        unit("ZHU", "ARTCC", "APT1"),
    ]);
    let mut reader = EventReader::from_str(&doc);
    let got = get_airport_info(&mut reader, &filter(&["ZHU"])).unwrap();
    assert_eq!(ids(&got), vec!["APT1".to_string()]);
}

#[test]
fn airports_keep_the_order_of_the_document() {
    let doc = document(&[
        airport("C", "CCC", "1 1"),
        unit("ZHU", "ARTCC", "A"),
        airport("B", "BBB", "2 2"),
        unit("ZFW", "ARTCC", "C"),
        airport("A", "AAA", "3 3"),
        unit("ZHU", "ARTCC", "B"),
        unit("ZAB", "ARTCC", "D"),
        airport("D", "DDD", "4 4"),
    ]);
    let mut reader = EventReader::from_str(&doc);
    let got = get_airport_info(&mut reader, &filter(&["ZHU", "ZFW"])).unwrap();
    assert_eq!(ids(&got), vec!["C".to_string(), "B".to_string(), "A".to_string()]);
}

#[test]
fn airports_only_of_centres_that_the_filter_names() {
    let doc = document(&[
        unit("ZHU", "TRACON", "APT1"),
        unit("ZFW", "ARTCC", "APT2"),
        airport("APT1", "IAH", "-95.34 29.98"),
        airport("APT2", "DFW", "-97.04 32.90"),
    ]);
    let mut reader = EventReader::from_str(&doc);
    assert!(get_airport_info(&mut reader, &filter(&["ZHU"])).unwrap().is_empty());
    let mut reader = EventReader::from_str(&doc);
    assert!(get_airport_info(&mut reader, &filter(&[])).unwrap().is_empty());
    let mut reader = EventReader::from_str(&doc);
    let got = get_airport_info(&mut reader, &filter(&["ZHU", "ZFW"])).unwrap();
    assert_eq!(ids(&got), vec!["APT2".to_string()]);
}

#[test]
fn airports_pass_over_elements_that_are_skipped() {
    let lacking = "<aixm:Unit><aixm:designator>ZHU</aixm:designator></aixm:Unit>".to_string();
    let no_position =
        "<aixm:AirportHeliport gml:id=\"APT0\"></aixm:AirportHeliport>".to_string();
    let doc = document(&[
        lacking,
        no_position,
        unit("ZHU", "ARTCC", "APT1"),
        airport("APT1", "IAH", "-95.34 29.98"),
    ]);
    let mut reader = EventReader::from_str(&doc);
    let got = get_airport_info(&mut reader, &filter(&["ZHU"])).unwrap();
    assert_eq!(ids(&got), vec!["APT1".to_string()]);
}

#[test]
fn airports_of_a_document_cut_short_are_an_error() {
    let mut doc = document(&[unit("ZHU", "ARTCC", "APT1"), airport("APT1", "IAH", "1 2")]);
    doc.truncate(doc.find("</gml:pos>").unwrap());
    let mut reader = EventReader::from_reader(doc.as_bytes());
    assert!(matches!(
        get_airport_info(&mut reader, &filter(&["ZHU"])),
        Err(DataError::XML { .. })
    ));
}

#[test]
fn airports_of_a_document_with_a_bad_position_are_an_error() {
    let doc = document(&[
        unit("ZHU", "ARTCC", "APT1"),
        airport("APT1", "IAH", "-95.34 29.98"),
        airport("APT2", "DFW", "-97.04"),
    ]);
    let mut reader = EventReader::from_str(&doc);
    match get_airport_info(&mut reader, &filter(&["ZHU"])) {
        Err(DataError::LatLon { text }) => assert_eq!(text, "-97.04"),
        other => panic!("{:?}", other.map(|a| ids(&a))),
    }
}

#[test]
fn airports_of_an_empty_document_are_none() {
    let mut reader = EventReader::from_str("");
    assert!(get_airport_info(&mut reader, &filter(&["ZHU"])).unwrap().is_empty());
    assert!(get_airport_info(&mut reader, &filter(&["ZHU"])).unwrap().is_empty());
}

#[test]
fn navaid_of_each_kind_is_read() {
    let doc = document(&[
        navaid("IAH", "VORTAC", "-95.34 29.98", "ZHU"),
        navaid("DFW", "VOR_DME", "-97.04 32.90", "ZFW"),
    ]);
    let mut reader = EventReader::from_str(&doc);
    assert!(find_element(&mut reader, "aixm:Navaid").unwrap().is_some());
    let first = get_navaid(&mut reader).unwrap();
    assert_eq!(first.designator, "IAH");
    assert_eq!(first.ty, NavaidType::VORTAC);
    assert_eq!(first.low_id, "ZHU");
    assert_eq!(first.latlon, LatLon::from_aixm("-95.34 29.98"));
    assert!(find_element(&mut reader, "aixm:Navaid").unwrap().is_some());
    let second = get_navaid(&mut reader).unwrap();
    assert_eq!(second.designator, "DFW");
    assert_eq!(second.ty, NavaidType::VORDME);
}

#[test]
fn navaid_of_another_kind_is_skipped() {
    let doc = document(&[navaid("XYZ", "NDB", "-95.34 29.98", "ZHU")]);
    let mut reader = EventReader::from_str(&doc);
    assert!(find_element(&mut reader, "aixm:Navaid").unwrap().is_some());
    assert!(matches!(get_navaid(&mut reader), Err(DataError::NotYielded)));
}

#[test]
fn navaid_keeps_a_kind_that_an_unknown_one_follows() {
    let doc = "<aixm:Navaid><aixm:designator>IAH</aixm:designator><aixm:type>VORTAC</aixm:type>\
               <aixm:type>NDB</aixm:type><gml:pos>1 2</gml:pos>\
               <nav:artccIdForLowAltitude>ZHU</nav:artccIdForLowAltitude></aixm:Navaid>";
    let mut reader = EventReader::from_str(doc);
    assert!(find_element(&mut reader, "aixm:Navaid").unwrap().is_some());
    assert_eq!(get_navaid(&mut reader).unwrap().ty, NavaidType::VORTAC);
}

#[test]
fn navaid_lacking_a_field_is_skipped() {
    let doc = "<aixm:Navaid><aixm:designator>IAH</aixm:designator><aixm:type>VORTAC</aixm:type>\
               <gml:pos>1 2</gml:pos></aixm:Navaid>";
    let mut reader = EventReader::from_str(doc);
    assert!(find_element(&mut reader, "aixm:Navaid").unwrap().is_some());
    assert!(matches!(get_navaid(&mut reader), Err(DataError::NotYielded)));
}

#[test]
fn navaids_of_the_centres_that_the_filter_names() {
    let doc = document(&[
        navaid("AAA", "VORTAC", "1 1", "ZHU"),
        navaid("BBB", "VOR_DME", "2 2", "ZFW"),
        navaid("CCC", "NDB", "3 3", "ZHU"),
        navaid("DDD", "VOR_DME", "4 4", "ZHU"),
        unit("ZHU", "ARTCC", "APT1"),
    ]);
    let mut reader = EventReader::from_str(&doc);
    let got = get_navaid_info(&mut reader, &filter(&["ZHU"])).unwrap();
    let names: Vec<&str> = got.iter().map(|n| n.designator.as_str()).collect();
    assert_eq!(names, vec!["AAA", "DDD"]);
    assert_eq!(got[1].latlon, LatLon(4 * DEGREE, 4 * DEGREE));
    let mut reader = EventReader::from_str(&doc);
    assert!(get_navaid_info(&mut reader, &filter(&["ZAB"])).unwrap().is_empty());
}

#[test]
fn navaids_of_a_document_cut_short_are_an_error() {
    let mut doc = document(&[navaid("AAA", "VORTAC", "1 1", "ZHU")]);
    doc.truncate(doc.find("</aixm:Navaid>").unwrap());
    let mut reader = EventReader::from_str(&doc);
    assert!(matches!(
        get_navaid_info(&mut reader, &filter(&["ZHU"])),
        Err(DataError::XML { quick_xml: quick_xml::Error::UnexpectedEof(_) })
    ));
}

#[test]
fn navaids_of_a_document_with_a_bad_position_are_an_error() {
    let doc = document(&[navaid("AAA", "VORTAC", "1 x", "ZHU")]);
    let mut reader = EventReader::from_str(&doc);
    assert!(matches!(
        get_navaid_info(&mut reader, &filter(&["ZHU"])),
        Err(DataError::LatLon { .. })
    ));
}

#[test]
fn gml_id_stands_between_the_quotes_behind_the_marker() {
    assert_eq!(
        extract_gml_id("#xpointer(//aixm:AirportHeliport[@gml:id='AH_0000001'])"),
        Some("AH_0000001")
    );
    assert_eq!(extract_gml_id("@gml:id=' padded '"), Some("padded"));
    assert_eq!(extract_gml_id("'before' @gml:id='after' 'later'"), Some("after"));
    assert_eq!(extract_gml_id("@gml:id='open"), Some("open"));
    assert_eq!(extract_gml_id("@gml:id=''"), Some(""));
    assert_eq!(extract_gml_id("@gml:id='"), Some(""));
    assert_eq!(extract_gml_id("@gml:id @gml:id='second'"), Some("second"));
    assert_eq!(extract_gml_id("\u{00e9}@gml:id='\u{00fc}'"), Some("\u{00fc}"));
}

#[test]
fn gml_id_needs_the_marker_and_a_quote() {
    assert_eq!(extract_gml_id(""), None);
    assert_eq!(extract_gml_id("#xpointer(id('AH_0000001'))"), None);
    assert_eq!(extract_gml_id("@gml:id=AH_0000001"), None);
    assert_eq!(extract_gml_id("'AH' @gml:id"), None);
    assert_eq!(extract_gml_id("@gml:i='AH'"), None);
}

#[test]
fn attribute_is_found_by_its_key() {
    let reader = EventReader::from_str("");
    let tag = b"a:tag one=\"1\" two='2 &amp; 3' three = \"3\"";
    let get = |key: &str| get_attribute(&reader, tag, 5, key).unwrap();
    assert_eq!(get("one"), Some("1".to_string()));
    assert_eq!(get("two"), Some("2 & 3".to_string()));
    assert_eq!(get("three"), Some("3".to_string()));
    assert_eq!(get("four"), None);
    assert_eq!(get("a:tag"), None);
    assert_eq!(get("on"), None);
}

#[test]
fn attribute_behind_a_malformed_one_is_not_found() {
    let reader = EventReader::from_str("");
    let tag = b"tag one=\"1\" broken two=\"2\"";
    assert_eq!(get_attribute(&reader, tag, 3, "one").unwrap(), Some("1".to_string()));
    assert_eq!(get_attribute(&reader, tag, 3, "two").unwrap(), None);
    let twice = b"tag one=\"1\" one=\"2\" two=\"2\"";
    assert_eq!(get_attribute(&reader, twice, 3, "one").unwrap(), Some("1".to_string()));
    assert_eq!(get_attribute(&reader, twice, 3, "two").unwrap(), None);
}

#[test]
fn attribute_that_cannot_be_unescaped_is_an_error() {
    let reader = EventReader::from_str("");
    let tag = b"tag one=\"&nothing;\" two=\"2\"";
    assert!(matches!(
        get_attribute(&reader, tag, 3, "one"),
        Err(DataError::XML { quick_xml: quick_xml::Error::EscapeError(_) })
    ));
    assert_eq!(get_attribute(&reader, tag, 3, "two").unwrap(), Some("2".to_string()));
    let bytes = b"tag one=\"\xff\"";
    assert!(matches!(
        get_attribute(&reader, bytes, 3, "one"),
        Err(DataError::XML { quick_xml: quick_xml::Error::Utf8(_) })
    ));
}

#[test]
fn link_of_a_tag_is_the_identifier_in_its_href() {
    let reader = EventReader::from_str("");
    let tag = b"aixm:airportLocation xlink:href=\"#xpointer(//x[@gml:id='AH_1'])\"";
    assert_eq!(get_gml_link(&reader, tag, 20).unwrap(), Some("AH_1".to_string()));
    let plain = b"aixm:airportLocation xlink:href=\"#AH_1\"";
    assert_eq!(get_gml_link(&reader, plain, 20).unwrap(), None);
    let none = b"aixm:airportLocation";
    assert_eq!(get_gml_link(&reader, none, 20).unwrap(), None);
}

#[test]
fn find_element_stops_behind_the_start_tag() {
    let mut reader = EventReader::from_str("<a><b x=\"1\"><c/></b><b y=\"2\"/><b z=\"3\"></b></a>");
    assert_eq!(find_element(&mut reader, "b").unwrap(), Some(b"b x=\"1\"".to_vec()));
    assert_eq!(find_element(&mut reader, "b").unwrap(), Some(b"b z=\"3\"".to_vec()));
    assert_eq!(find_element(&mut reader, "b").unwrap(), None);
    assert_eq!(find_element(&mut reader, "a").unwrap(), None);
}

#[test]
fn find_element_hands_on_the_error_of_the_tokenizer() {
    let mut reader = EventReader::from_str("<a></b><c>");
    assert!(matches!(
        find_element(&mut reader, "c"),
        Err(DataError::XML { quick_xml: quick_xml::Error::EndEventMismatch { .. } })
    ));
    assert_eq!(find_element(&mut reader, "c").unwrap(), None);
}

#[test]
fn contains_compares_whole_texts() {
    let list = filter(&["ZHU", "ZFW"]);
    assert!(contains(&list, "ZHU"));
    assert!(contains(&list, "ZFW"));
    assert!(!contains(&list, "ZH"));
    assert!(!contains(&list, "zhu"));
    assert!(!contains(&list, ""));
    assert!(!contains(&[], "ZHU"));
}

#[test]
fn builders_give_an_item_only_when_it_is_complete() {
    let mut unit = UnitBuilder::default();
    unit.designator = Some("ZHU".to_string());
    unit.ty = Some("ARTCC".to_string());
    assert!(matches!(
        UnitBuilder { designator: None, ty: None, airport_location: None }.build(),
        Err(DataError::NotYielded)
    ));
    unit.airport_location = Some("A".to_string());
    assert_eq!(unit.build().unwrap().airport_location, "A");

    let mut airport = AirportBuilder::default();
    airport.id = Some("A".to_string());
    airport.latlon = Some(LatLon(1, 2));
    let built = airport.build().unwrap();
    assert_eq!(built.id, "A");
    assert_eq!(built.designator, "");
    assert_eq!(built.latlon, LatLon(1, 2));
    assert!(matches!(AirportBuilder::default().build(), Err(DataError::NotYielded)));

    let mut navaid = NavaidBuilder::default();
    navaid.designator = Some("IAH".to_string());
    navaid.ty = Some(NavaidType::VORDME);
    navaid.latlon = Some(LatLon(1, 2));
    assert!(matches!(
        NavaidBuilder { designator: None, ty: None, latlon: None, low_id: None }.build(),
        Err(DataError::NotYielded)
    ));
    navaid.low_id = Some("ZHU".to_string());
    assert_eq!(navaid.build().unwrap().ty, NavaidType::VORDME);
}

#[test]
fn errors_have_their_words() {
    assert_eq!(DataError::NotYielded.message(), "No item was yielded");
    assert_eq!(
        DataError::from(quick_xml::Error::TextNotFound).message(),
        "XML error"
    );
    assert_eq!(
        DataError::from(std::io::Error::new(std::io::ErrorKind::Other, "x")).message(),
        "I/O error"
    );
    assert_eq!(DataError::LatLon { text: "x".to_string() }.message(), "LatLon fail");
    assert!(matches!(
        DataError::from(quick_xml::Error::TextNotFound),
        DataError::XML { quick_xml: quick_xml::Error::TextNotFound }
    ));
}
