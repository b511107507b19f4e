use nasr2sct::aixm::{Airport, Navaid, NavaidType};
use nasr2sct::geo::{LatLon, UNITS_PER_DEGREE};
use nasr2sct::sct::{
    airport_line, airspace_class, airspace_of, first_word, fix_columns, fix_line, fixes,
    frequency_of, navaid_line, sector_file, tower_airspace_columns, tower_airspaces,
    tower_frequencies, tower_frequency, tower_frequency_columns, whole_match, AirspaceType,
    TowerEntry, SEPARATOR,
};
use nasr2sct::txt_data::DataFile;

const DEGREE: i64 = UNITS_PER_DEGREE as i64;

fn twr3(airport: &str, frequencies: &str) -> String {
    format!("TWR3{:<4}{:<44}REST OF THE LINE\n", airport, frequencies)
}

fn twr8(airport: &str, marks: &str) -> String {
    format!("TWR8{:<4}{:<4}REST\n", airport, marks)
}

fn fix1(name: &str, lat: &str, lon: &str, centre: &str) -> String {
    format!(
        "FIX1{:<30}{:<2}{:<30}{:<14}{:<14}{:<134}{:<5}{:<4}{:<4}END\n",
        name, "TX", "K2", lat, lon, "", name, "", centre
    )
}

fn entry<T>(airport: &str, value: T) -> TowerEntry<T> {
    TowerEntry { airport: airport.to_string(), value }
}

fn pairs(list: &[TowerEntry<String>]) -> Vec<(String, String)> {
    list.iter().map(|e| (e.airport.clone(), e.value.clone())).collect()
}

#[test]
fn airspace_names() {
    assert_eq!(AirspaceType::ClassB.as_str(), "B");
    assert_eq!(AirspaceType::ClassC.as_str(), "C");
    assert_eq!(AirspaceType::ClassD.as_str(), "D");
    assert_eq!(AirspaceType::ClassE.as_str(), "E");
    assert_eq!(AirspaceType::MOA.as_str(), "MOA");
    let name: &str = AirspaceType::MOA.into();
    assert_eq!(name, "MOA");
    assert_eq!(<&str>::from(AirspaceType::ClassD), "D");
}

#[test]
fn airspace_class_goes_by_the_first_mark_that_is_set() {
    assert_eq!(airspace_class("Y", "", ""), AirspaceType::ClassB);
    assert_eq!(airspace_class("Y", "Y", "Y"), AirspaceType::ClassB);
    assert_eq!(airspace_class("", "Y", "Y"), AirspaceType::ClassC);
    assert_eq!(airspace_class("N", "N", "Y"), AirspaceType::ClassD);
    assert_eq!(airspace_class("", "", ""), AirspaceType::ClassE);
    assert_eq!(airspace_class("N", "N", "N"), AirspaceType::ClassE);
    assert_eq!(airspace_class("y", "yes", "Y "), AirspaceType::ClassE);
}

#[test]
fn columns_are_those_of_the_files() {
    assert_eq!(tower_frequency_columns(), vec![(0, 4), (4, 4), (8, 44)]);
    assert_eq!(
        tower_airspace_columns(),
        vec![(0, 4), (4, 4), (8, 1), (9, 1), (10, 1), (11, 1)]
    );
    assert_eq!(fix_columns(), vec![(0, 4), (66, 14), (80, 14), (228, 5), (237, 4)]);
}

#[test]
fn first_word_is_the_first_run_without_white_space() {
    assert_eq!(first_word("  118.3 LCL  "), Some("118.3"));
    assert_eq!(first_word("118.3"), Some("118.3"));
    assert_eq!(first_word("\t\n"), None);
    assert_eq!(first_word(""), None);
}

#[test]
fn whole_match_is_the_first_group() {
    assert_eq!(whole_match(&None), None);
    assert_eq!(whole_match(&Some(vec![])), None);
    assert_eq!(whole_match(&Some(vec![None])), None);
    assert_eq!(
        whole_match(&Some(vec![Some("all".to_string()), Some("part".to_string())])),
        Some("all".to_string())
    );
}

#[test]
fn tower_frequency_is_the_first_in_the_first_word() {
    assert_eq!(tower_frequency("118.3 LCL"), Some("118.3".to_string()));
    assert_eq!(tower_frequency("119.100;LCL/P 121.9"), Some("119.100".to_string()));
    assert_eq!(tower_frequency("  1234.5678  "), Some("234.567".to_string()));
    assert_eq!(tower_frequency("LCL 118.3"), None);
    assert_eq!(tower_frequency("118"), None);
    assert_eq!(tower_frequency(""), None);
}

#[test]
fn tower_frequencies_of_a_file() {
    let text = [
        twr3("ATL", "119.100 LCL"),
        twr8("ATL", "YNNN"),
        twr3("JFK", "LOCAL ONLY"),
        twr3("ATL", "125.325 GND"),
        twr3("ORD", "120.75;N"),
    ]
    .concat();
    let file = DataFile::from_reader(text.as_bytes());
    assert!(file.fits("TWR3", &tower_frequency_columns()));
    let got = tower_frequencies(&file).unwrap();
    assert_eq!(
        pairs(&got),
        vec![
            ("ATL".to_string(), "119.100".to_string()),
            ("ATL".to_string(), "125.325".to_string()),
            ("ORD".to_string(), "120.75".to_string()),
        ]
    );
    assert_eq!(frequency_of(&got, "ATL"), "119.100");
    assert_eq!(frequency_of(&got, "ORD"), "120.75");
    assert_eq!(frequency_of(&got, "JFK"), "122.800");
}

#[test]
fn tower_frequencies_need_a_word_in_each_record() {
    let text = [twr3("ATL", "119.100 LCL"), twr3("JFK", ""), twr3("ORD", "120.75")].concat();
    let file = DataFile::from_reader(text.as_bytes());
    assert!(file.fits("TWR3", &tower_frequency_columns()));
    assert!(tower_frequencies(&file).is_none());
}

#[test]
fn tower_airspaces_of_a_file() {
    let text = [
        twr8("ATL", "YNNN"),
        twr3("ATL", "119.100 LCL"),
        twr8("AUS", "NYNN"),
        twr8("ABC", "NNYN"),
        twr8("XYZ", "NNNY"),
        twr8("ABC", "NYNN"),
    ]
    .concat();
    let file = DataFile::from_reader(text.as_bytes());
    assert!(file.fits("TWR8", &tower_airspace_columns()));
    let got = tower_airspaces(&file);
    let classes: Vec<(&str, AirspaceType)> =
        got.iter().map(|e| (e.airport.as_str(), e.value)).collect();
    assert_eq!(
        classes,
        vec![
            ("ATL", AirspaceType::ClassB),
            ("AUS", AirspaceType::ClassC),
            ("ABC", AirspaceType::ClassD),
            ("XYZ", AirspaceType::ClassE),
            ("ABC", AirspaceType::ClassC),
        ]
    );
    assert_eq!(airspace_of(&got, "ATL"), AirspaceType::ClassB);
    assert_eq!(airspace_of(&got, "ABC"), AirspaceType::ClassC);
    assert_eq!(airspace_of(&got, "XYZ"), AirspaceType::ClassE);
    assert_eq!(airspace_of(&got, "NONE"), AirspaceType::ClassE);
}

#[test]
fn frequency_of_takes_the_first_entry() {
    let table = vec![
        entry("A", "1.1".to_string()),
        entry("B", "2.2".to_string()),
        entry("A", "3.3".to_string()),
    ];
    assert_eq!(frequency_of(&table, "A"), "1.1");
    assert_eq!(frequency_of(&table, "B"), "2.2");
    assert_eq!(frequency_of(&table, "C"), "122.800");
    assert_eq!(frequency_of(&Vec::new(), "A"), "122.800");
}

#[test]
fn airspace_of_takes_the_last_entry() {
    let table = vec![
        entry("A", AirspaceType::ClassB),
        entry("B", AirspaceType::ClassC),
        entry("A", AirspaceType::ClassD),
    ];
    assert_eq!(airspace_of(&table, "A"), AirspaceType::ClassD);
    assert_eq!(airspace_of(&table, "B"), AirspaceType::ClassC);
    assert_eq!(airspace_of(&table, "C"), AirspaceType::ClassE);
    assert_eq!(airspace_of(&Vec::new(), "A"), AirspaceType::ClassE);
}

#[test]
fn airport_line_pads_designator_and_frequency() {
    let a = Airport {
        id: "AH_1".to_string(),
        designator: "IAH".to_string(),
        latlon: LatLon(29 * DEGREE, -95 * DEGREE),
    };
    assert_eq!(
        airport_line(&a, "118.3", AirspaceType::ClassB),
        "IAH  118.3   N029.00.00.000 W095.00.00.000 B\n"
    );
    let long = Airport { id: "x".to_string(), designator: "LONGER".to_string(), latlon: LatLon(0, 0) };
    assert_eq!(
        airport_line(&long, "122.8000", AirspaceType::MOA),
        "LONGER 122.8000 N000.00.00.000 E000.00.00.000 MOA\n"
    );
    let empty = Airport { id: "x".to_string(), designator: "".to_string(), latlon: LatLon(0, 0) };
    assert_eq!(
        airport_line(&empty, "", AirspaceType::ClassE),
        "             N000.00.00.000 E000.00.00.000 E\n"
    );
}

#[test]
fn navaid_and_fix_lines() {
    let n = Navaid {
        designator: "IAH".to_string(),
        ty: NavaidType::VORTAC,
        latlon: LatLon(29 * DEGREE, -95 * DEGREE),
        low_id: "ZHU".to_string(),
    };
    assert_eq!(navaid_line(&n), "IAH 000.000 N029.00.00.000 W095.00.00.000\n");
    assert_eq!(
        fix_line("AABEE", LatLon(-DEGREE, DEGREE)),
        "AABEE S001.00.00.000 E001.00.00.000\n"
    );
}

#[test]
fn fixes_of_the_centres_that_the_filter_names() {
    let text = [
        fix1("AABEE", "31-53-00.510N", "081-23-18.000W", "ZJX"),
        fix1("BBBBB", "30-00-00.000N", "090-00-00.000W", "ZHU"),
        fix1("CCCCC", "nothing", "090-00-00.000W", "ZJX"),
        fix1("DDDDD", "nothing", "nothing", "ZHU"),
        fix1("EEEEE", "10-00-00.000S", "020-30-00.000E", "ZJX"),
    ]
    .concat();
    let file = DataFile::from_reader(text.as_bytes());
    assert!(file.fits("FIX1", &fix_columns()));
    let got = fixes(&file, &["ZJX".to_string()]);
    assert_eq!(
        got.lines,
        vec![
            "AABEE N031.53.00.510 W081.23.18.000\n".to_string(),
            "EEEEE S010.00.00.000 E020.30.00.000\n".to_string(),
        ]
    );
    assert_eq!(got.rejected, vec!["CCCCC".to_string()]);
    let none = fixes(&file, &[]);
    assert!(none.lines.is_empty());
    assert!(none.rejected.is_empty());
}

#[test]
fn sector_file_has_three_sections() {
    let airports = vec![
        Airport { id: "1".to_string(), designator: "IAH".to_string(), latlon: LatLon(29 * DEGREE, -95 * DEGREE) },
        Airport { id: "2".to_string(), designator: "HOU".to_string(), latlon: LatLon(29 * DEGREE, -95 * DEGREE) },
    ];
    let frequencies = vec![entry("IAH", "118.3".to_string())];
    let airspaces = vec![entry("IAH", AirspaceType::ClassB)];
    let navaids = vec![Navaid {
        designator: "IAH".to_string(),
        ty: NavaidType::VORTAC,
        latlon: LatLon(29 * DEGREE, -95 * DEGREE),
        low_id: "ZHU".to_string(),
    }];
    let fixes = vec!["AABEE N031.53.00.510 W081.23.18.000\n".to_string()];
    let got = sector_file(&airports, &frequencies, &airspaces, &navaids, &fixes);
    let sep = "\n\n;===============================================================================\n\n";
    assert_eq!(SEPARATOR, sep);
    let want = format!(
        "{sep}[AIRPORT]\n\
         IAH  118.3   N029.00.00.000 W095.00.00.000 B\n\
         HOU  122.800 N029.00.00.000 W095.00.00.000 E\n\
         {sep}[VOR]\n\
         IAH 000.000 N029.00.00.000 W095.00.00.000\n\
         {sep}[FIXES]\n\
         AABEE N031.53.00.510 W081.23.18.000\n",
        sep = sep
    );
    assert_eq!(got, want);
}

#[test]
fn sector_file_of_nothing_has_its_headers() {
    let got = sector_file(&Vec::new(), &Vec::new(), &Vec::new(), &Vec::new(), &Vec::new());
    let sep = SEPARATOR;
    assert_eq!(got, format!("{sep}[AIRPORT]\n{sep}[VOR]\n{sep}[FIXES]\n", sep = sep));
}
