//! The text of a sector file: what the tower files say of an airport, and
//! the lines of airports, navigation aids and fixes.

use crate::aixm::parse::{contains, texts, views};
use crate::aixm::{Airport, AirportView, Navaid, NavaidView};
use crate::geo::{
    captures, groups_view, legacy_position, regex_captures, vrc_text, Groups, LatLon, DMS_PATTERN,
};
use crate::text::{split_whitespace, str_eq, words};
use crate::txt_data::{Column, DataFile};
use vstd::prelude::*;
use vstd::string::StrSliceExecFns;
use vstd::string::StringExecFns;

verus! {

/// What stands between the sections of a sector file.
pub const SEPARATOR: &'static str =
    "\n\n;===============================================================================\n\n";

pub const AIRPORT_HEADER: &'static str = "[AIRPORT]\n";

pub const VOR_HEADER: &'static str = "[VOR]\n";

pub const FIXES_HEADER: &'static str = "[FIXES]\n";

/// The frequency of an airport of which the tower file gives none.
pub const DEFAULT_FREQUENCY: &'static str = "122.800";

/// The frequency that stands for every navigation aid.
pub const NAVAID_FREQUENCY: &'static str = "000.000";

/// The pattern of a frequency: up to three digits, a point, up to three
/// digits.
pub const FREQUENCY_PATTERN: &'static str = "\\d{1,3}\\.\\d{1,3}";

/// The kind of the tower records that give frequencies.
pub const TOWER_FREQUENCY_KIND: &'static str = "TWR3";

/// The kind of the tower records that give the class of the airspace.
pub const TOWER_AIRSPACE_KIND: &'static str = "TWR8";

/// The kind of the fix records that give name and position.
pub const FIX_KIND: &'static str = "FIX1";

/// The mark of a class that an airport has.
pub const YES: &'static str = "Y";

/// The classes of airspace.
#[derive(Clone, Copy, Debug, PartialEq, Eq, Structural)]
pub enum AirspaceType {
    ClassB,
    ClassC,
    ClassD,
    ClassE,
    MOA,
}

impl AirspaceType {
    /// The name of the class in a sector file.
    pub open spec fn name(self) -> Seq<char> {
        match self {
            AirspaceType::ClassB => "B"@,
            AirspaceType::ClassC => "C"@,
            AirspaceType::ClassD => "D"@,
            AirspaceType::ClassE => "E"@,
            AirspaceType::MOA => "MOA"@,
        }
    }

    /// The name of the class in a sector file.
    pub fn as_str(self) -> (name: &'static str)
        ensures
            name@ == self.name(),
    {
        match self {
            AirspaceType::ClassB => "B",
            AirspaceType::ClassC => "C",
            AirspaceType::ClassD => "D",
            AirspaceType::ClassE => "E",
            AirspaceType::MOA => "MOA",
        }
    }
}

impl From<AirspaceType> for &'static str {
    /// The name of the class in a sector file.
    fn from(x: AirspaceType) -> (name: &'static str) {
        match x {
            AirspaceType::ClassB => "B",
            AirspaceType::ClassC => "C",
            AirspaceType::ClassD => "D",
            AirspaceType::ClassE => "E",
            AirspaceType::MOA => "MOA",
        }
    }
}

impl vstd::std_specs::convert::FromSpecImpl<AirspaceType> for &'static str {
    open spec fn obeys_from_spec() -> bool {
        true
    }

    open spec fn from_spec(x: AirspaceType) -> &'static str {
        match x {
            AirspaceType::ClassB => "B",
            AirspaceType::ClassC => "C",
            AirspaceType::ClassD => "D",
            AirspaceType::ClassE => "E",
            AirspaceType::MOA => "MOA",
        }
    }
}

/// The class that three marks give: the first that is set decides, B
/// before C before D; with none set it is E.
pub open spec fn class_of_marks(b: Seq<char>, c: Seq<char>, d: Seq<char>) -> AirspaceType {
    if b == YES@ {
        AirspaceType::ClassB
    } else if c == YES@ {
        AirspaceType::ClassC
    } else if d == YES@ {
        AirspaceType::ClassD
    } else {
        AirspaceType::ClassE
    }
}

/// The class that the marks for B, C and D give.
pub fn airspace_class(b: &str, c: &str, d: &str) -> (class: AirspaceType)
    ensures
        class == class_of_marks(b@, c@, d@),
{
    if str_eq(b, YES) {
        AirspaceType::ClassB
    } else if str_eq(c, YES) {
        AirspaceType::ClassC
    } else if str_eq(d, YES) {
        AirspaceType::ClassD
    } else {
        AirspaceType::ClassE
    }
}

/// The columns of a tower frequency record: kind, airport, frequencies.
pub fn tower_frequency_columns() -> (columns: Vec<Column>)
    ensures
        columns@ == seq![(0usize, 4usize), (4usize, 4usize), (8usize, 44usize)],
{
    vec![(0, 4), (4, 4), (8, 44)]
}

/// The columns of a tower airspace record: kind, airport, and a mark for
/// each of the classes B, C, D and E.
pub fn tower_airspace_columns() -> (columns: Vec<Column>)
    ensures
        columns@ == seq![
            (0usize, 4usize),
            (4usize, 4usize),
            (8usize, 1usize),
            (9usize, 1usize),
            (10usize, 1usize),
            (11usize, 1usize),
        ],
{
    vec![(0, 4), (4, 4), (8, 1), (9, 1), (10, 1), (11, 1)]
}

/// The columns of a fix record: kind, latitude, longitude, name, centre.
pub fn fix_columns() -> (columns: Vec<Column>)
    ensures
        columns@ == seq![
            (0usize, 4usize),
            (66usize, 14usize),
            (80usize, 14usize),
            (228usize, 5usize),
            (237usize, 4usize),
        ],
{
    vec![(0, 4), (66, 14), (80, 14), (228, 5), (237, 4)]
}

/// The whole of a match, if there is one.
pub open spec fn matched(groups: Option<Seq<Option<Seq<char>>>>) -> Option<Seq<char>> {
    match groups {
        Some(g) => if g.len() > 0 {
            g[0]
        } else {
            None
        },
        None => None,
    }
}

/// The whole of a match, if there is one.
pub fn whole_match(groups: &Option<Groups>) -> (r: Option<String>)
    ensures
        r is Some <==> matched(groups_view(*groups)) is Some,
        r matches Some(text) ==> Some(text@) == matched(groups_view(*groups)),
{
    match groups {
        Some(g) => {
            if g.len() == 0 {
                return None;
            }
            assert(groups_view(*groups)->Some_0[0] == match g[0] {
                Some(t) => Some(t@),
                None => None,
            });
            match &g[0] {
                Some(text) => Some(text.clone()),
                None => None,
            }
        },
        None => None,
    }
}

/// The first word of `text`, if it has one.
pub fn first_word<'a>(text: &'a str) -> (r: Option<&'a str>)
    ensures
        r is Some <==> words(text@).len() > 0,
        r matches Some(word) ==> word@ == words(text@)[0],
{
    let all = split_whitespace(text);
    if all.len() > 0 {
        Some(all[0])
    } else {
        None
    }
}

/// The frequency in the frequencies field of a tower record: the first
/// frequency in the first word of the field, if there is a word and it
/// holds one.
pub open spec fn frequency_in(field: Seq<char>) -> Option<Seq<char>> {
    if words(field).len() > 0 {
        matched(regex_captures(FREQUENCY_PATTERN@, words(field)[0]))
    } else {
        None
    }
}

/// The frequency in the frequencies field `field` of a tower record.
pub fn tower_frequency(field: &str) -> (r: Option<String>)
    ensures
        r is Some <==> frequency_in(field@) is Some,
        r matches Some(text) ==> Some(text@) == frequency_in(field@),
{
    match first_word(field) {
        Some(word) => whole_match(&captures(FREQUENCY_PATTERN, word)),
        None => None,
    }
}

/// What the tower file says of one airport: a frequency, or the class of
/// its airspace.
pub struct TowerEntry<T> {
    pub airport: String,
    pub value: T,
}

/// The frequency entries of a list, as texts.
pub open spec fn frequency_views(list: Seq<TowerEntry<String>>) -> Seq<(Seq<char>, Seq<char>)> {
    Seq::new(list.len(), |i: int| (list[i].airport@, list[i].value@))
}

/// The airspace entries of a list, as texts.
pub open spec fn airspace_views(list: Seq<TowerEntry<AirspaceType>>) -> Seq<
    (Seq<char>, AirspaceType),
> {
    Seq::new(list.len(), |i: int| (list[i].airport@, list[i].value))
}

/// The frequency entries that tower frequency records give, in their
/// order: one for each record that holds a frequency. `None` where a record
/// has no word in its frequencies field.
pub open spec fn frequency_entries(records: Seq<Seq<Seq<char>>>) -> Option<
    Seq<(Seq<char>, Seq<char>)>,
>
    decreases records.len(),
{
    if records.len() == 0 {
        Some(Seq::empty())
    } else {
        let r = records.last();
        match frequency_entries(records.drop_last()) {
            None => None,
            Some(before) => if words(r[2]).len() == 0 {
                None
            } else {
                match frequency_in(r[2]) {
                    Some(frequency) => Some(before.push((r[1], frequency))),
                    None => Some(before),
                }
            },
        }
    }
}

/// The airspace entries that tower airspace records give, one for each.
pub open spec fn airspace_entries(records: Seq<Seq<Seq<char>>>) -> Seq<(Seq<char>, AirspaceType)> {
    Seq::new(
        records.len(),
        |i: int| (records[i][1], class_of_marks(records[i][2], records[i][3], records[i][4])),
    )
}

/// The frequency of `airport`: that of its first entry, or the default.
pub open spec fn frequency_for(entries: Seq<(Seq<char>, Seq<char>)>, airport: Seq<char>) -> Seq<
    char,
>
    decreases entries.len(),
{
    if entries.len() == 0 {
        DEFAULT_FREQUENCY@
    } else if entries[0].0 == airport {
        entries[0].1
    } else {
        frequency_for(entries.drop_first(), airport)
    }
}

/// The class of the airspace of `airport`: that of its last entry, or E.
pub open spec fn class_for(entries: Seq<(Seq<char>, AirspaceType)>, airport: Seq<char>) -> AirspaceType
    decreases entries.len(),
{
    if entries.len() == 0 {
        AirspaceType::ClassE
    } else if entries.last().0 == airport {
        entries.last().1
    } else {
        class_for(entries.drop_last(), airport)
    }
}

/// Once a record has no word in its frequencies field, no later record
/// mends it.
pub proof fn lemma_frequency_entries_fail(front: Seq<Seq<Seq<char>>>, back: Seq<Seq<Seq<char>>>)
    requires
        frequency_entries(front) is None,
    ensures
        frequency_entries(front + back) is None,
    decreases back.len(),
{
    if back.len() == 0 {
        assert(front + back =~= front);
    } else {
        lemma_frequency_entries_fail(front, back.drop_last());
        assert((front + back).drop_last() =~= front + back.drop_last());
    }
}

/// The frequency entries of the tower file, in the order of its records;
/// `None` where a frequency record has no word in its frequencies field.
pub fn tower_frequencies(twr: &DataFile) -> (r: Option<Vec<TowerEntry<String>>>)
    requires
        twr.accepts(
            TOWER_FREQUENCY_KIND@,
            seq![(0usize, 4usize), (4usize, 4usize), (8usize, 44usize)],
        ),
    ensures
        ({
            let entries = frequency_entries(
                twr.records_of(
                    TOWER_FREQUENCY_KIND@,
                    seq![(0usize, 4usize), (4usize, 4usize), (8usize, 44usize)],
                ),
            );
            &&& r is Some <==> entries is Some
            &&& r matches Some(list) ==> Some(frequency_views(list@)) == entries
        }),
{
    let columns = tower_frequency_columns();
    let mut iter = twr.records(TOWER_FREQUENCY_KIND, columns.as_slice());
    let ghost all = iter.remaining();
    let ghost mut taken: Seq<Seq<Seq<char>>> = Seq::empty();
    let mut table: Vec<TowerEntry<String>> = Vec::new();
    assert(taken + iter.remaining() =~= all);
    assert(frequency_views(table@) =~= Seq::empty());
    loop
        invariant
            iter.wf(),
            iter.columns().len() == 3,
            all == twr.records_of(
                TOWER_FREQUENCY_KIND@,
                seq![(0usize, 4usize), (4usize, 4usize), (8usize, 44usize)],
            ),
            taken + iter.remaining() == all,
            frequency_entries(taken) == Some(frequency_views(table@)),
        decreases iter.remaining().len(),
    {
        let ghost before = iter.remaining();
        match iter.next() {
            None => {
                assert(taken + iter.remaining() =~= taken);
                return Some(table);
            },
            Some(record) => {
                proof {
                    assert(taken.push(record@) + iter.remaining() =~= taken + before);
                    assert(taken.push(record@).drop_last() =~= taken);
                }
                let ghost views = frequency_views(table@);
                let word = first_word(record[2]);
                if word.is_none() {
                    proof {
                        lemma_frequency_entries_fail(taken.push(record@), iter.remaining());
                    }
                    return None;
                }
                match tower_frequency(record[2]) {
                    Some(frequency) => {
                        let airport = String::from_str(record[1]);
                        table.push(TowerEntry { airport, value: frequency });
                        assert(frequency_views(table@) =~= views.push((record@[1], frequency@)));
                    },
                    None => {},
                }
                proof {
                    taken = taken.push(record@);
                }
            },
        }
    }
}

/// The airspace entries of the tower file, in the order of its records.
pub fn tower_airspaces(twr: &DataFile) -> (list: Vec<TowerEntry<AirspaceType>>)
    requires
        twr.accepts(
            TOWER_AIRSPACE_KIND@,
            seq![
                (0usize, 4usize),
                (4usize, 4usize),
                (8usize, 1usize),
                (9usize, 1usize),
                (10usize, 1usize),
                (11usize, 1usize),
            ],
        ),
    ensures
        airspace_views(list@) == airspace_entries(
            twr.records_of(
                TOWER_AIRSPACE_KIND@,
                seq![
                    (0usize, 4usize),
                    (4usize, 4usize),
                    (8usize, 1usize),
                    (9usize, 1usize),
                    (10usize, 1usize),
                    (11usize, 1usize),
                ],
            ),
        ),
{
    let columns = tower_airspace_columns();
    let mut iter = twr.records(TOWER_AIRSPACE_KIND, columns.as_slice());
    let ghost all = iter.remaining();
    let ghost mut taken: Seq<Seq<Seq<char>>> = Seq::empty();
    let mut table: Vec<TowerEntry<AirspaceType>> = Vec::new();
    assert(taken + iter.remaining() =~= all);
    assert(airspace_views(table@) =~= airspace_entries(taken));
    loop
        invariant
            iter.wf(),
            iter.columns().len() == 6,
            all == twr.records_of(
                TOWER_AIRSPACE_KIND@,
                seq![
                    (0usize, 4usize),
                    (4usize, 4usize),
                    (8usize, 1usize),
                    (9usize, 1usize),
                    (10usize, 1usize),
                    (11usize, 1usize),
                ],
            ),
            taken + iter.remaining() == all,
            airspace_views(table@) == airspace_entries(taken),
        decreases iter.remaining().len(),
    {
        let ghost before = iter.remaining();
        match iter.next() {
            None => {
                assert(taken + iter.remaining() =~= taken);
                return table;
            },
            Some(record) => {
                let ghost views = airspace_views(table@);
                let class = airspace_class(record[2], record[3], record[4]);
                let airport = String::from_str(record[1]);
                table.push(TowerEntry { airport, value: class });
                proof {
                    assert(taken.push(record@) + iter.remaining() =~= taken + before);
                    assert(airspace_views(table@) =~= views.push((record@[1], class)));
                    assert(airspace_entries(taken.push(record@)) =~= airspace_entries(taken).push(
                        (record@[1], class),
                    ));
                    taken = taken.push(record@);
                }
            },
        }
    }
}

/// The frequency of the airport `airport`.
pub fn frequency_of<'a>(table: &'a Vec<TowerEntry<String>>, airport: &str) -> (r: &'a str)
    ensures
        r@ == frequency_for(frequency_views(table@), airport@),
{
    let mut i: usize = 0;
    assert(frequency_views(table@).skip(0) =~= frequency_views(table@));
    while i < table.len()
        invariant
            i <= table.len(),
            frequency_for(frequency_views(table@), airport@) == frequency_for(
                frequency_views(table@).skip(i as int),
                airport@,
            ),
        decreases table.len() - i,
    {
        let ghost left = frequency_views(table@).skip(i as int);
        assert(left[0] == (table[i as int].airport@, table[i as int].value@));
        if str_eq(table[i].airport.as_str(), airport) {
            return table[i].value.as_str();
        }
        assert(left.drop_first() =~= frequency_views(table@).skip(i + 1));
        i += 1;
    }
    assert(frequency_views(table@).skip(i as int) =~= Seq::empty());
    DEFAULT_FREQUENCY
}

/// The class of the airspace of the airport `airport`.
pub fn airspace_of(table: &Vec<TowerEntry<AirspaceType>>, airport: &str) -> (class: AirspaceType)
    ensures
        class == class_for(airspace_views(table@), airport@),
{
    let mut i: usize = table.len();
    assert(airspace_views(table@).take(i as int) =~= airspace_views(table@));
    while i > 0
        invariant
            i <= table.len(),
            class_for(airspace_views(table@), airport@) == class_for(
                airspace_views(table@).take(i as int),
                airport@,
            ),
        decreases i,
    {
        let ghost left = airspace_views(table@).take(i as int);
        assert(left.last() == (table[i - 1].airport@, table[i - 1].value));
        if str_eq(table[i - 1].airport.as_str(), airport) {
            return table[i - 1].value;
        }
        assert(left.drop_last() =~= airspace_views(table@).take(i - 1));
        i -= 1;
    }
    assert(airspace_views(table@).take(0) =~= Seq::empty());
    AirspaceType::ClassE
}

/// `text` with blanks behind it up to `width` characters.
pub open spec fn left_aligned(text: Seq<char>, width: nat) -> Seq<char> {
    if text.len() >= width {
        text
    } else {
        text + Seq::new((width - text.len()) as nat, |i: int| ' ')
    }
}

/// The line of an airport: designator in four columns, frequency in seven,
/// position, class.
pub open spec fn airport_line_text(
    airport: AirportView,
    frequency: Seq<char>,
    class: AirspaceType,
) -> Seq<char> {
    left_aligned(airport.designator, 4) + seq![' '] + left_aligned(frequency, 7) + seq![' ']
        + vrc_text(airport.latlon) + seq![' '] + class.name() + seq!['\n']
}

/// The line of a navigation aid: designator, the frequency that stands for
/// all, position.
pub open spec fn navaid_line_text(navaid: NavaidView) -> Seq<char> {
    navaid.designator + seq![' '] + NAVAID_FREQUENCY@ + seq![' '] + vrc_text(navaid.latlon) + seq![
        '\n',
    ]
}

/// The line of a fix: name and position.
pub open spec fn fix_line_text(name: Seq<char>, position: LatLon) -> Seq<char> {
    name + seq![' '] + vrc_text(position) + seq!['\n']
}

/// Texts one behind the other.
pub open spec fn joined(parts: Seq<Seq<char>>) -> Seq<char>
    decreases parts.len(),
{
    if parts.len() == 0 {
        Seq::empty()
    } else {
        joined(parts.drop_last()) + parts.last()
    }
}

/// The lines of `airports`, each with the frequency and the class that the
/// tower file gives for its designator.
pub open spec fn airport_lines(
    airports: Seq<AirportView>,
    frequencies: Seq<(Seq<char>, Seq<char>)>,
    airspaces: Seq<(Seq<char>, AirspaceType)>,
) -> Seq<Seq<char>> {
    Seq::new(
        airports.len(),
        |i: int|
            airport_line_text(
                airports[i],
                frequency_for(frequencies, airports[i].designator),
                class_for(airspaces, airports[i].designator),
            ),
    )
}

/// The lines of `navaids`.
pub open spec fn navaid_lines(navaids: Seq<NavaidView>) -> Seq<Seq<char>> {
    Seq::new(navaids.len(), |i: int| navaid_line_text(navaids[i]))
}

/// The position of a fix record.
pub open spec fn fix_position(record: Seq<Seq<char>>) -> Option<LatLon> {
    legacy_position(
        regex_captures(DMS_PATTERN@, record[1]),
        regex_captures(DMS_PATTERN@, record[2]),
    )
}

/// The lines of the fixes among `records` whose centre `filter` names and
/// whose position has a value, in their order.
pub open spec fn fix_lines(records: Seq<Seq<Seq<char>>>, filter: Seq<Seq<char>>) -> Seq<Seq<char>>
    decreases records.len(),
{
    if records.len() == 0 {
        Seq::empty()
    } else {
        let r = records.last();
        let before = fix_lines(records.drop_last(), filter);
        if filter.contains(r[4]) && fix_position(r) is Some {
            before.push(fix_line_text(r[3], fix_position(r)->Some_0))
        } else {
            before
        }
    }
}

/// The names of the fixes among `records` whose centre `filter` names and
/// whose position has no value, in their order.
pub open spec fn fix_rejects(records: Seq<Seq<Seq<char>>>, filter: Seq<Seq<char>>) -> Seq<
    Seq<char>,
>
    decreases records.len(),
{
    if records.len() == 0 {
        Seq::empty()
    } else {
        let r = records.last();
        let before = fix_rejects(records.drop_last(), filter);
        if filter.contains(r[4]) && fix_position(r) is None {
            before.push(r[3])
        } else {
            before
        }
    }
}

/// The fixes of a file: the lines of those that have a position, and the
/// names of those that have none.
pub struct Fixes {
    pub lines: Vec<String>,
    pub rejected: Vec<String>,
}

/// Appends `text` with blanks behind it up to `width` characters.
fn push_left_aligned(out: &mut String, text: &str, width: usize)
    ensures
        final(out)@ == old(out)@ + left_aligned(text@, width as nat),
{
    proof {
        reveal_strlit(" ");
    }
    out.append(text);
    let mut n = text.unicode_len();
    let ghost start = n;
    while n < width
        invariant
            start == text@.len(),
            start <= n,
            n <= width || n == start,
            out@ == old(out)@ + text@ + Seq::new((n - start) as nat, |i: int| ' '),
        decreases width - n,
    {
        proof {
            reveal_strlit(" ");
        }
        out.append(" ");
        assert(out@ =~= old(out)@ + text@ + Seq::new((n + 1 - start) as nat, |i: int| ' '));
        n += 1;
    }
    assert(out@ =~= old(out)@ + left_aligned(text@, width as nat));
}

/// The line of `airport` with the frequency `frequency` and the class
/// `class`.
pub fn airport_line(airport: &Airport, frequency: &str, class: AirspaceType) -> (line: String)
    ensures
        line@ == airport_line_text(airport@, frequency@, class),
{
    proof {
        reveal_strlit(" ");
        reveal_strlit("\n");
    }
    let mut line = String::new();
    push_left_aligned(&mut line, airport.designator.as_str(), 4);
    line.append(" ");
    push_left_aligned(&mut line, frequency, 7);
    line.append(" ");
    line.append(airport.latlon.to_vrc().as_str());
    line.append(" ");
    line.append(class.as_str());
    line.append("\n");
    assert(line@ =~= airport_line_text(airport@, frequency@, class));
    line
}

/// The line of `navaid`.
pub fn navaid_line(navaid: &Navaid) -> (line: String)
    ensures
        line@ == navaid_line_text(navaid@),
{
    proof {
        reveal_strlit(" ");
        reveal_strlit("\n");
    }
    let mut line = String::new();
    line.append(navaid.designator.as_str());
    line.append(" ");
    line.append(NAVAID_FREQUENCY);
    line.append(" ");
    line.append(navaid.latlon.to_vrc().as_str());
    line.append("\n");
    assert(line@ =~= navaid_line_text(navaid@));
    line
}

/// The line of the fix `name` at `position`.
pub fn fix_line(name: &str, position: LatLon) -> (line: String)
    ensures
        line@ == fix_line_text(name@, position),
{
    proof {
        reveal_strlit(" ");
        reveal_strlit("\n");
    }
    let mut line = String::new();
    line.append(name);
    line.append(" ");
    line.append(position.to_vrc().as_str());
    line.append("\n");
    assert(line@ =~= fix_line_text(name@, position));
    line
}

/// The fixes of the fix file that lie in a centre which `filter` names. A
/// fix whose position has no value is set aside by its name; it ends
/// nothing.
pub fn fixes(fix: &DataFile, filter: &[String]) -> (r: Fixes)
    requires
        fix.accepts(
            FIX_KIND@,
            seq![
                (0usize, 4usize),
                (66usize, 14usize),
                (80usize, 14usize),
                (228usize, 5usize),
                (237usize, 4usize),
            ],
        ),
    ensures
        ({
            let records = fix.records_of(
                FIX_KIND@,
                seq![
                    (0usize, 4usize),
                    (66usize, 14usize),
                    (80usize, 14usize),
                    (228usize, 5usize),
                    (237usize, 4usize),
                ],
            );
            &&& texts(r.lines@) == fix_lines(records, texts(filter@))
            &&& texts(r.rejected@) == fix_rejects(records, texts(filter@))
        }),
{
    let columns = fix_columns();
    let mut iter = fix.records(FIX_KIND, columns.as_slice());
    let ghost all = iter.remaining();
    let ghost mut taken: Seq<Seq<Seq<char>>> = Seq::empty();
    let mut lines: Vec<String> = Vec::new();
    let mut rejected: Vec<String> = Vec::new();
    assert(taken + iter.remaining() =~= all);
    assert(texts(lines@) =~= fix_lines(taken, texts(filter@)));
    assert(texts(rejected@) =~= fix_rejects(taken, texts(filter@)));
    loop
        invariant
            iter.wf(),
            iter.columns().len() == 5,
            all == fix.records_of(
                FIX_KIND@,
                seq![
                    (0usize, 4usize),
                    (66usize, 14usize),
                    (80usize, 14usize),
                    (228usize, 5usize),
                    (237usize, 4usize),
                ],
            ),
            taken + iter.remaining() == all,
            texts(lines@) == fix_lines(taken, texts(filter@)),
            texts(rejected@) == fix_rejects(taken, texts(filter@)),
        decreases iter.remaining().len(),
    {
        let ghost before = iter.remaining();
        match iter.next() {
            None => {
                assert(taken + iter.remaining() =~= taken);
                return Fixes { lines, rejected };
            },
            Some(record) => {
                proof {
                    assert(taken.push(record@) + iter.remaining() =~= taken + before);
                    assert(taken.push(record@).drop_last() =~= taken);
                }
                if contains(filter, record[4]) {
                    match LatLon::from_fix_txt(record[1], record[2]) {
                        Some(position) => {
                            let ghost views = texts(lines@);
                            let line = fix_line(record[3], position);
                            lines.push(line);
                            assert(texts(lines@) =~= views.push(
                                fix_line_text(record@[3], position),
                            ));
                        },
                        None => {
                            let ghost views = texts(rejected@);
                            rejected.push(String::from_str(record[3]));
                            assert(texts(rejected@) =~= views.push(record@[3]));
                        },
                    }
                }
                proof {
                    taken = taken.push(record@);
                }
            },
        }
    }
}

/// The text of the sector file: the airports with what the tower file says
/// of each, the navigation aids, and the lines of the fixes, each section
/// behind a separator and its header.
pub fn sector_file(
    airports: &Vec<Airport>,
    frequencies: &Vec<TowerEntry<String>>,
    airspaces: &Vec<TowerEntry<AirspaceType>>,
    navaids: &Vec<Navaid>,
    fixes: &Vec<String>,
) -> (sct: String)
    ensures
        sct@ == SEPARATOR@ + AIRPORT_HEADER@ + joined(
            airport_lines(
                views(airports@),
                frequency_views(frequencies@),
                airspace_views(airspaces@),
            ),
        ) + SEPARATOR@ + VOR_HEADER@ + joined(navaid_lines(views(navaids@))) + SEPARATOR@
            + FIXES_HEADER@ + joined(texts(fixes@)),
{
    let mut sct = String::new();
    sct.append(SEPARATOR);
    sct.append(AIRPORT_HEADER);
    let ghost head = sct@;
    let ghost a_lines = airport_lines(
        views(airports@),
        frequency_views(frequencies@),
        airspace_views(airspaces@),
    );
    let mut i: usize = 0;
    assert(a_lines.take(0) =~= Seq::empty());
    while i < airports.len()
        invariant
            i <= airports.len(),
            a_lines == airport_lines(
                views(airports@),
                frequency_views(frequencies@),
                airspace_views(airspaces@),
            ),
            sct@ == head + joined(a_lines.take(i as int)),
        decreases airports.len() - i,
    {
        let a = &airports[i];
        let line = airport_line(
            a,
            frequency_of(frequencies, a.designator.as_str()),
            airspace_of(airspaces, a.designator.as_str()),
        );
        sct.append(line.as_str());
        proof {
            assert(a_lines.take(i + 1).drop_last() =~= a_lines.take(i as int));
            assert(a_lines.take(i + 1).last() == line@);
        }
        i += 1;
    }
    assert(a_lines.take(i as int) =~= a_lines);
    sct.append(SEPARATOR);
    sct.append(VOR_HEADER);
    let ghost head = sct@;
    let ghost n_lines = navaid_lines(views(navaids@));
    let mut i: usize = 0;
    assert(n_lines.take(0) =~= Seq::empty());
    while i < navaids.len()
        invariant
            i <= navaids.len(),
            n_lines == navaid_lines(views(navaids@)),
            sct@ == head + joined(n_lines.take(i as int)),
        decreases navaids.len() - i,
    {
        let line = navaid_line(&navaids[i]);
        sct.append(line.as_str());
        proof {
            assert(n_lines.take(i + 1).drop_last() =~= n_lines.take(i as int));
            assert(n_lines.take(i + 1).last() == line@);
        }
        i += 1;
    }
    assert(n_lines.take(i as int) =~= n_lines);
    sct.append(SEPARATOR);
    sct.append(FIXES_HEADER);
    let ghost head = sct@;
    let ghost f_lines = texts(fixes@);
    let mut i: usize = 0;
    assert(f_lines.take(0) =~= Seq::empty());
    while i < fixes.len()
        invariant
            i <= fixes.len(),
            f_lines == texts(fixes@),
            sct@ == head + joined(f_lines.take(i as int)),
        decreases fixes.len() - i,
    {
        sct.append(fixes[i].as_str());
        proof {
            assert(f_lines.take(i + 1).drop_last() =~= f_lines.take(i as int));
            assert(f_lines.take(i + 1).last() == fixes[i as int]@);
        }
        i += 1;
    }
    assert(f_lines.take(i as int) =~= f_lines);
    sct
}

} // verus!
