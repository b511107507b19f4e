//! Geodetic coordinates and their three texts: decimal degrees as the XML
//! files give them, degrees-minutes-seconds as the fixed-width files give
//! them, and the degrees-minutes-seconds text of a sector file.
//!
//! A coordinate is held exactly, as a whole number of units of which
//! `UNITS_PER_DEGREE` make one degree, north and east positive. A text that
//! gives more decimals than the unit resolves loses them by truncation.

use crate::text::{
    all_digits, digits_value, find_char, leading_value, lemma_leading_value_bound,
    lemma_no_digits_no_value, lemma_pow10_18, parse_digits, parse_fraction, position_of,
    split_whitespace, str_eq, to_chars, words,
};
use vstd::prelude::*;
use vstd::string::StringExecFns;
use vstd::string::StrSliceExecFns;

verus! {

/// Units in one degree: a unit is a millionth of a millionth of a second of arc.
pub const UNITS_PER_DEGREE: u64 = 3_600_000_000_000_000;

/// Units in one minute of arc.
pub const UNITS_PER_MINUTE: u64 = 60_000_000_000_000;

/// Units in one second of arc.
pub const UNITS_PER_SECOND: u64 = 1_000_000_000_000;

/// Units in the last decimal of a degree that is kept.
pub const UNITS_PER_DECIMAL: u64 = 36;

/// Decimals of a degree that are kept.
pub const DEGREE_DECIMALS: usize = 14;

/// Decimals of a second of arc that are kept.
pub const SECOND_DECIMALS: usize = 12;

/// The pattern of one degrees-minutes-seconds component, such as
/// `31-53-00.510N`: degrees, minutes, seconds with a fraction, and one
/// letter for the hemisphere.
pub const DMS_PATTERN: &'static str = "(\\d+)-(\\d+)-(\\d+\\.\\d+)(\\w)";

/// A position: latitude and longitude, in units.
#[derive(Clone, Copy, Debug, PartialEq, Eq, Structural)]
pub struct LatLon(pub i64, pub i64);

/// The groups of one match of a pattern: the whole match first, then each
/// group, `None` for a group that took no part in the match.
pub type Groups = Vec<Option<String>>;

/// What of `groups` contracts speak of.
pub open spec fn groups_view(groups: Option<Groups>) -> Option<Seq<Option<Seq<char>>>> {
    match groups {
        Some(v) => Some(
            Seq::new(
                v.len() as nat,
                |i: int|
                    match v[i] {
                        Some(g) => Some(g@),
                        None => None,
                    },
            ),
        ),
        None => None,
    }
}

/// The groups of the leftmost match of the regular expression `pattern` in
/// `text`; `None` where the pattern is no regular expression or matches
/// nowhere.
pub uninterp spec fn regex_captures(pattern: Seq<char>, text: Seq<char>) -> Option<
    Seq<Option<Seq<char>>>,
>;

/// `regex::Regex::new` on `pattern` and `regex::Regex::captures` of the
/// result on `text`, each group of the match copied out as a `String`.
/// The result depends on the two texts alone; the contract gives it its name.
#[verifier::external_body]
pub(crate) fn captures(pattern: &str, text: &str) -> (r: Option<Groups>)
    ensures
        groups_view(r) == regex_captures(pattern@, text@),
{
    let re = regex::Regex::new(pattern).ok()?;
    let found = re.captures(text)?;
    Some(found.iter().map(|g| g.map(|m| m.as_str().to_owned())).collect())
}

/// The magnitude, in units, of degrees `d`, minutes `m` and seconds `s`,
/// each given in decimal digits, the seconds with a point and a fraction;
/// `None` where a text is not of that form or the magnitude is beyond the
/// largest that can be held.
pub open spec fn dms_magnitude(d: Seq<char>, m: Seq<char>, s: Seq<char>) -> Option<int> {
    let p = position_of(s, '.', 0);
    let whole = s.take(p);
    let fraction = s.skip(p + 1);
    if d.len() > 0 && all_digits(d) && m.len() > 0 && all_digits(m) && p < s.len() && whole.len()
        > 0 && all_digits(whole) && fraction.len() > 0 && all_digits(fraction) {
        let u = digits_value(d) * UNITS_PER_DEGREE + digits_value(m) * UNITS_PER_MINUTE
            + digits_value(whole) * UNITS_PER_SECOND + leading_value(
            fraction,
            SECOND_DECIMALS as nat,
        );
        if u <= i64::MAX {
            Some(u)
        } else {
            None
        }
    } else {
        None
    }
}

/// The letter of a hemisphere.
pub open spec fn is_hemisphere(letter: Seq<char>) -> bool {
    letter == seq!['N'] || letter == seq!['S'] || letter == seq!['E'] || letter == seq!['W']
}

/// The letter of a southern or western hemisphere.
pub open spec fn is_negative_hemisphere(letter: Seq<char>) -> bool {
    letter == seq!['S'] || letter == seq!['W']
}

/// The value, in units, of one degrees-minutes-seconds component from the
/// groups of its match: degrees plus minutes over 60 plus seconds over 3600,
/// negated for south and west. The last group must be the letter of a
/// hemisphere.
pub open spec fn dms_units(groups: Option<Seq<Option<Seq<char>>>>) -> Option<int> {
    match groups {
        Some(g) => {
            if g.len() == 5 && g[1] is Some && g[2] is Some && g[3] is Some && g[4] is Some
                && is_hemisphere(g[4]->Some_0) {
                match dms_magnitude(g[1]->Some_0, g[2]->Some_0, g[3]->Some_0) {
                    Some(u) => Some(
                        if is_negative_hemisphere(g[4]->Some_0) {
                            -u
                        } else {
                            u
                        },
                    ),
                    None => None,
                }
            } else {
                None
            }
        },
        None => None,
    }
}

/// The position that two matched components give: both must have a value.
pub open spec fn legacy_position(
    lat: Option<Seq<Option<Seq<char>>>>,
    lon: Option<Seq<Option<Seq<char>>>>,
) -> Option<LatLon> {
    match (dms_units(lat), dms_units(lon)) {
        (Some(a), Some(o)) => Some(LatLon(a as i64, o as i64)),
        _ => None,
    }
}

/// The value, in units, of a number of degrees written in decimal digits,
/// with or without a sign and a point; `None` where `token` is not of that
/// form or the value is beyond the largest that can be held.
pub open spec fn decimal_units(token: Seq<char>) -> Option<int> {
    let signed = token.len() > 0 && (token[0] == '-' || token[0] == '+');
    let body = if signed {
        token.drop_first()
    } else {
        token
    };
    let p = position_of(body, '.', 0);
    let whole = body.take(p);
    let fraction = if p < body.len() {
        body.skip(p + 1)
    } else {
        Seq::empty()
    };
    if all_digits(whole) && all_digits(fraction) && whole.len() + fraction.len() > 0 {
        let u = digits_value(whole) * UNITS_PER_DEGREE + leading_value(
            fraction,
            DEGREE_DECIMALS as nat,
        ) * UNITS_PER_DECIMAL;
        if u <= i64::MAX {
            Some(
                if token[0] == '-' {
                    -u
                } else {
                    u
                },
            )
        } else {
            None
        }
    } else {
        None
    }
}

/// The position that a text of two numbers of degrees gives: the longitude
/// stands first, the latitude second.
pub open spec fn aixm_position(text: Seq<char>) -> Option<LatLon> {
    let w = words(text);
    if w.len() == 2 {
        match (decimal_units(w[0]), decimal_units(w[1])) {
            (Some(lon), Some(lat)) => Some(LatLon(lat as i64, lon as i64)),
            _ => None,
        }
    } else {
        None
    }
}

/// The decimal digit for `d`.
pub open spec fn digit_char(d: int) -> char {
    if d == 0 {
        '0'
    } else if d == 1 {
        '1'
    } else if d == 2 {
        '2'
    } else if d == 3 {
        '3'
    } else if d == 4 {
        '4'
    } else if d == 5 {
        '5'
    } else if d == 6 {
        '6'
    } else if d == 7 {
        '7'
    } else if d == 8 {
        '8'
    } else {
        '9'
    }
}

/// `n` in decimal digits, with zeros in front up to `width` digits.
pub open spec fn padded(n: nat, width: nat) -> Seq<char>
    decreases n, width,
{
    if n < 10 && width <= 1 {
        seq![digit_char(n as int)]
    } else {
        padded(n / 10, if width > 0 { (width - 1) as nat } else { 0 }) + seq![digit_char((n % 10) as int)]
    }
}

/// The size of `v`.
pub open spec fn magnitude(v: int) -> nat {
    if v < 0 {
        (-v) as nat
    } else {
        v as nat
    }
}

/// `units` in thousandths of a second of arc, rounded to the nearest, a
/// half to the even one.
pub open spec fn rounded_millis(units: nat) -> nat {
    let q = units / 1_000_000_000;
    let r = units % 1_000_000_000;
    if r > 500_000_000 || (r == 500_000_000 && q % 2 == 1) {
        q + 1
    } else {
        q
    }
}

/// The degrees, minutes and seconds of a magnitude of `a` units: whole
/// degrees in three digits or more, minutes in two, seconds in two with
/// three decimals, points between them. The seconds are what is left of
/// the minute, rounded; they are not carried into the minute.
pub open spec fn dms_text(a: nat) -> Seq<char> {
    let millis = rounded_millis(a % (UNITS_PER_MINUTE as nat));
    padded(a / (UNITS_PER_DEGREE as nat), 3) + seq!['.'] + padded(
        (a / (UNITS_PER_MINUTE as nat)) % 60,
        2,
    ) + seq!['.'] + padded(millis / 1000, 2) + seq!['.'] + padded(millis % 1000, 3)
}

/// The text of a position in a sector file: latitude with `N` or `S` in
/// front, a space, longitude with `E` or `W` in front.
pub open spec fn vrc_text(p: LatLon) -> Seq<char> {
    seq![if p.0 >= 0 { 'N' } else { 'S' }] + dms_text(magnitude(p.0 as int)) + seq![' '] + seq![
        if p.1 >= 0 { 'E' } else { 'W' },
    ] + dms_text(magnitude(p.1 as int))
}

/// The number that the digits of `text` spell, if it is one digit at least,
/// digits only, and the number is at most `cap`.
fn parse_number(text: &str, cap: u64) -> (r: Option<u64>)
    requires
        cap <= 1_000_000_000_000_000_000,
    ensures
        r is Some <==> text@.len() > 0 && all_digits(text@) && digits_value(text@) <= cap,
        r matches Some(v) ==> v == digits_value(text@),
{
    let chars = to_chars(text);
    if chars.len() == 0 {
        return None;
    }
    assert(chars@.subrange(0, chars.len() as int) =~= chars@);
    parse_digits(&chars, 0, chars.len(), cap)
}

/// The seconds of `text`, in units, if it is digits, a point and digits, and
/// the whole seconds are at most `cap`.
fn parse_seconds(text: &str, cap: u64) -> (r: Option<u64>)
    requires
        cap <= 10_000_000,
    ensures
        ({
            let p = position_of(text@, '.', 0);
            let whole = text@.take(p);
            let fraction = text@.skip(p + 1);
            &&& r is Some <==> p < text@.len() && whole.len() > 0 && all_digits(whole)
                && fraction.len() > 0 && all_digits(fraction) && digits_value(whole) <= cap
            &&& r matches Some(v) ==> v == digits_value(whole) * UNITS_PER_SECOND + leading_value(
                fraction,
                SECOND_DECIMALS as nat,
            )
        }),
{
    let chars = to_chars(text);
    let n = chars.len();
    let p = find_char(&chars, '.', 0);
    if p >= n || p == 0 || p + 1 >= n {
        return None;
    }
    assert(chars@.subrange(0, p as int) =~= text@.take(p as int));
    assert(chars@.subrange(p + 1, n as int) =~= text@.skip(p + 1));
    let whole = match parse_digits(&chars, 0, p, cap) {
        Some(v) => v,
        None => { return None; },
    };
    let fraction = match parse_fraction(&chars, p + 1, n, SECOND_DECIMALS) {
        Some(v) => v,
        None => { return None; },
    };
    proof {
        lemma_leading_value_bound(text@.skip(p + 1), SECOND_DECIMALS as nat);
        lemma_pow10_18();
    }
    Some(whole * UNITS_PER_SECOND + fraction)
}

/// The value, in units, of one degrees-minutes-seconds component from the
/// groups of its match.
pub fn dms_value(groups: &Option<Groups>) -> (r: Option<i64>)
    ensures
        r is Some <==> dms_units(groups_view(*groups)) is Some,
        r matches Some(v) ==> Some(v as int) == dms_units(groups_view(*groups)),
{
    let g = match groups {
        Some(g) => g,
        None => { return None; },
    };
    if g.len() != 5 {
        return None;
    }
    let ghost view = groups_view(*groups)->Some_0;
    assert(view[1] == match g[1] { Some(t) => Some(t@), None => None });
    assert(view[2] == match g[2] { Some(t) => Some(t@), None => None });
    assert(view[3] == match g[3] { Some(t) => Some(t@), None => None });
    assert(view[4] == match g[4] { Some(t) => Some(t@), None => None });
    let (d, m, s, letter) = match (&g[1], &g[2], &g[3], &g[4]) {
        (Some(d), Some(m), Some(s), Some(letter)) => (d, m, s, letter),
        _ => { return None; },
    };
    proof {
        reveal_strlit("N");
        reveal_strlit("S");
        reveal_strlit("E");
        reveal_strlit("W");
        assert("N"@ =~= seq!['N']);
        assert("S"@ =~= seq!['S']);
        assert("E"@ =~= seq!['E']);
        assert("W"@ =~= seq!['W']);
    }
    let negative = str_eq(letter.as_str(), "S") || str_eq(letter.as_str(), "W");
    if !negative && !str_eq(letter.as_str(), "N") && !str_eq(letter.as_str(), "E") {
        return None;
    }
    // Beyond these the magnitude cannot be held, whatever the other fields are.
    let degrees = match parse_number(d.as_str(), 2562) {
        Some(v) => v,
        None => { return None; },
    };
    let minutes = match parse_number(m.as_str(), 153_722) {
        Some(v) => v,
        None => { return None; },
    };
    let seconds = match parse_seconds(s.as_str(), 9_223_372) {
        Some(v) => v,
        None => { return None; },
    };
    proof {
        let p = position_of(s@, '.', 0);
        lemma_leading_value_bound(s@.skip(p + 1), SECOND_DECIMALS as nat);
        lemma_pow10_18();
    }
    let total: u128 = degrees as u128 * UNITS_PER_DEGREE as u128 + minutes as u128
        * UNITS_PER_MINUTE as u128 + seconds as u128;
    if total > i64::MAX as u128 {
        return None;
    }
    if negative {
        Some(-(total as i64))
    } else {
        Some(total as i64)
    }
}

/// The value, in units, of a number of degrees written in decimal digits.
pub fn decimal_value(token: &str) -> (r: Option<i64>)
    ensures
        r is Some <==> decimal_units(token@) is Some,
        r matches Some(v) ==> Some(v as int) == decimal_units(token@),
{
    let all = to_chars(token);
    let signed = all.len() > 0 && (all[0] == '-' || all[0] == '+');
    let negative = all.len() > 0 && all[0] == '-';
    let body: &str = if signed {
        token.substring_char(1, all.len())
    } else {
        token
    };
    assert(body@ =~= if signed { token@.drop_first() } else { token@ });
    let chars = to_chars(body);
    let n = chars.len();
    let p = find_char(&chars, '.', 0);
    assert(chars@.subrange(0, p as int) =~= body@.take(p as int));
    let ghost fraction_text = if p < n {
        body@.skip(p + 1)
    } else {
        Seq::empty()
    };
    // Beyond this many degrees the value cannot be held, whatever follows.
    let whole = match parse_digits(&chars, 0, p, 2562) {
        Some(v) => v,
        None => { return None; },
    };
    let fraction = if p < n {
        assert(chars@.subrange(p + 1, n as int) =~= body@.skip(p + 1));
        match parse_fraction(&chars, p + 1, n, DEGREE_DECIMALS) {
            Some(v) => v,
            None => { return None; },
        }
    } else {
        assert(leading_value(Seq::<char>::empty(), DEGREE_DECIMALS as nat) == 0) by {
            lemma_leading_value_bound(Seq::<char>::empty(), 0);
            lemma_no_digits_no_value(DEGREE_DECIMALS as nat);
        }
        0
    };
    if p == 0 && (p >= n || p + 1 >= n) {
        return None;
    }
    proof {
        lemma_leading_value_bound(fraction_text, DEGREE_DECIMALS as nat);
        lemma_pow10_18();
    }
    let total: u128 = whole as u128 * UNITS_PER_DEGREE as u128 + fraction as u128
        * UNITS_PER_DECIMAL as u128;
    if total > i64::MAX as u128 {
        return None;
    }
    if negative {
        Some(-(total as i64))
    } else {
        Some(total as i64)
    }
}

/// The text of the digit `d`.
fn digit_str(d: u64) -> (r: &'static str)
    requires
        d < 10,
    ensures
        r@ == seq![digit_char(d as int)],
{
    proof {
        reveal_strlit("0");
        reveal_strlit("1");
        reveal_strlit("2");
        reveal_strlit("3");
        reveal_strlit("4");
        reveal_strlit("5");
        reveal_strlit("6");
        reveal_strlit("7");
        reveal_strlit("8");
        reveal_strlit("9");
    }
    let r = if d == 0 {
        "0"
    } else if d == 1 {
        "1"
    } else if d == 2 {
        "2"
    } else if d == 3 {
        "3"
    } else if d == 4 {
        "4"
    } else if d == 5 {
        "5"
    } else if d == 6 {
        "6"
    } else if d == 7 {
        "7"
    } else if d == 8 {
        "8"
    } else {
        "9"
    };
    assert(r@ =~= seq![digit_char(d as int)]);
    r
}

/// Appends `n` in decimal digits, with zeros in front up to `width` digits.
fn push_padded(out: &mut String, n: u64, width: usize)
    ensures
        final(out)@ == old(out)@ + padded(n as nat, width as nat),
    decreases n, width,
{
    if n >= 10 || width > 1 {
        push_padded(out, n / 10, if width > 0 { width - 1 } else { 0 });
    }
    out.append(digit_str(n % 10));
    assert(out@ =~= old(out)@ + padded(n as nat, width as nat));
}

/// Appends the degrees, minutes and seconds of a magnitude of `a` units.
fn push_dms(out: &mut String, a: u64)
    ensures
        final(out)@ == old(out)@ + dms_text(a as nat),
{
    let degrees = a / UNITS_PER_DEGREE;
    let minutes = (a / UNITS_PER_MINUTE) % 60;
    let left = a % UNITS_PER_MINUTE;
    let q = left / 1_000_000_000;
    let r = left % 1_000_000_000;
    let millis = if r > 500_000_000 || (r == 500_000_000 && q % 2 == 1) {
        q + 1
    } else {
        q
    };
    proof {
        reveal_strlit(".");
        assert("."@ =~= seq!['.']);
    }
    push_padded(out, degrees, 3);
    out.append(".");
    push_padded(out, minutes, 2);
    out.append(".");
    push_padded(out, millis / 1000, 2);
    out.append(".");
    push_padded(out, millis % 1000, 3);
    assert(out@ =~= old(out)@ + dms_text(a as nat));
}

/// The size of `v`.
fn magnitude_of(v: i64) -> (r: u64)
    ensures
        r == magnitude(v as int),
{
    if v >= 0 {
        v as u64
    } else if v == i64::MIN {
        9_223_372_036_854_775_808
    } else {
        (-v) as u64
    }
}

impl LatLon {
    /// The position with latitude `lat` and longitude `lon`, in units.
    pub fn new(lat: i64, lon: i64) -> (r: Self)
        ensures
            r == LatLon(lat, lon),
    {
        LatLon(lat, lon)
    }

    /// The position that the groups of two matched components give, the
    /// latitude's first: both must have a value.
    pub fn from_dms_captures(lat: &Option<Groups>, lon: &Option<Groups>) -> (r: Option<Self>)
        ensures
            r == legacy_position(groups_view(*lat), groups_view(*lon)),
    {
        match (dms_value(lat), dms_value(lon)) {
            (Some(a), Some(o)) => Some(LatLon(a, o)),
            _ => None,
        }
    }

    /// The position that two degrees-minutes-seconds texts give, such as
    /// `31-53-00.510N` and `081-23-18.000W`; `None` where either has no
    /// value.
    pub fn from_fix_txt(lat: &str, lon: &str) -> (r: Option<Self>)
        ensures
            r == legacy_position(
                regex_captures(DMS_PATTERN@, lat@),
                regex_captures(DMS_PATTERN@, lon@),
            ),
    {
        let lat = captures(DMS_PATTERN, lat);
        let lon = captures(DMS_PATTERN, lon);
        LatLon::from_dms_captures(&lat, &lon)
    }

    /// The position that a text of two numbers of degrees gives, the
    /// longitude first; `None` where the text is not two such numbers.
    pub fn parse_aixm(x: &str) -> (r: Option<Self>)
        ensures
            r == aixm_position(x@),
    {
        let tokens = split_whitespace(x);
        if tokens.len() != 2 {
            return None;
        }
        match (decimal_value(tokens[0]), decimal_value(tokens[1])) {
            (Some(lon), Some(lat)) => Some(LatLon(lat, lon)),
            _ => None,
        }
    }

    /// The position that a text of two numbers of degrees gives, the
    /// longitude first.
    pub fn from_aixm(x: &str) -> (r: Self)
        requires
            aixm_position(x@) is Some,
        ensures
            Some(r) == aixm_position(x@),
    {
        match LatLon::parse_aixm(x) {
            Some(p) => p,
            None => LatLon(0, 0),
        }
    }

    /// The text of the position in a sector file, such as
    /// `N031.53.00.510 W081.23.18.000`.
    pub fn to_vrc(self) -> (r: String)
        ensures
            r@ == vrc_text(self),
    {
        proof {
            reveal_strlit("N");
            reveal_strlit("S");
            reveal_strlit("E");
            reveal_strlit("W");
            reveal_strlit(" ");
            assert("N"@ =~= seq!['N']);
            assert("S"@ =~= seq!['S']);
            assert("E"@ =~= seq!['E']);
            assert("W"@ =~= seq!['W']);
            assert(" "@ =~= seq![' ']);
        }
        let mut tmp = String::new();
        tmp.append(if self.0 >= 0 { "N" } else { "S" });
        push_dms(&mut tmp, magnitude_of(self.0));
        tmp.append(" ");
        tmp.append(if self.1 >= 0 { "E" } else { "W" });
        push_dms(&mut tmp, magnitude_of(self.1));
        assert(tmp@ =~= vrc_text(self));
        tmp
    }
}

/// A pair of components has a position only if each has a value: one that
/// has none takes the other with it.
pub proof fn lemma_legacy_position_needs_both(
    lat: Option<Seq<Option<Seq<char>>>>,
    lon: Option<Seq<Option<Seq<char>>>>,
)
    ensures
        legacy_position(lat, lon) is Some <==> dms_units(lat) is Some && dms_units(lon) is Some,
        legacy_position(lat, lon) matches Some(p) ==> p.0 == dms_units(lat)->Some_0 && p.1
            == dms_units(lon)->Some_0,
{
}

/// A component whose last group is no letter of a hemisphere, or that did
/// not match at all, has no value.
pub proof fn lemma_dms_needs_hemisphere(groups: Option<Seq<Option<Seq<char>>>>)
    requires
        groups matches Some(g) ==> g.len() == 5 && g[4] is Some && !is_hemisphere(g[4]->Some_0),
    ensures
        dms_units(groups) is None,
{
}

/// South and west are negative, north and east are not.
pub proof fn lemma_dms_sign(groups: Seq<Option<Seq<char>>>)
    requires
        dms_units(Some(groups)) is Some,
    ensures
        is_negative_hemisphere(groups[4]->Some_0) ==> dms_units(Some(groups))->Some_0 <= 0,
        !is_negative_hemisphere(groups[4]->Some_0) ==> dms_units(Some(groups))->Some_0 >= 0,
{
}

/// Degrees, minutes below 60, seconds below 60 and thousandths of a second
/// come out of the text as they went into the magnitude.
pub proof fn lemma_dms_text_round_trip(d: nat, m: nat, s: nat, f: nat)
    requires
        m < 60,
        s < 60,
        f < 1000,
    ensures
        dms_text(
            d * UNITS_PER_DEGREE as nat + m * UNITS_PER_MINUTE as nat + s * UNITS_PER_SECOND as nat
                + f * 1_000_000_000,
        ) == padded(d, 3) + seq!['.'] + padded(m, 2) + seq!['.'] + padded(s, 2) + seq!['.']
            + padded(f, 3),
{
    let left = s * 1_000_000_000_000 + f * 1_000_000_000;
    let a = d * 3_600_000_000_000_000 + m * 60_000_000_000_000 + left;
    assert(left < 60_000_000_000_000);
    assert(a / 60_000_000_000_000 == d * 60 + m && a % 60_000_000_000_000 == left) by {
        vstd::arithmetic::div_mod::lemma_fundamental_div_mod_converse(
            a as int,
            60_000_000_000_000,
            (d * 60 + m) as int,
            left as int,
        );
    }
    assert(a / 3_600_000_000_000_000 == d) by {
        vstd::arithmetic::div_mod::lemma_fundamental_div_mod_converse(
            a as int,
            3_600_000_000_000_000,
            d as int,
            (m * 60_000_000_000_000 + left) as int,
        );
    }
    assert((d * 60 + m) % 60 == m) by {
        vstd::arithmetic::div_mod::lemma_fundamental_div_mod_converse(
            (d * 60 + m) as int,
            60,
            d as int,
            m as int,
        );
    }
    assert(left / 1_000_000_000 == s * 1000 + f && left % 1_000_000_000 == 0) by {
        vstd::arithmetic::div_mod::lemma_fundamental_div_mod_converse(
            left as int,
            1_000_000_000,
            (s * 1000 + f) as int,
            0,
        );
    }
    assert(rounded_millis(left) == s * 1000 + f);
    assert((s * 1000 + f) / 1000 == s && (s * 1000 + f) % 1000 == f) by {
        vstd::arithmetic::div_mod::lemma_fundamental_div_mod_converse(
            (s * 1000 + f) as int,
            1000,
            s as int,
            f as int,
        );
    }
}

/// In the text of a sector file the hemisphere goes by the sign: zero and
/// above is north and east, below zero is south and west.
pub proof fn lemma_vrc_text_hemispheres(p: LatLon)
    ensures
        vrc_text(p)[0] == (if p.0 >= 0 { 'N' } else { 'S' }),
        vrc_text(p)[dms_text(magnitude(p.0 as int)).len() as int + 2] == (if p.1 >= 0 { 'E' } else { 'W' }),
        vrc_text(p)[dms_text(magnitude(p.0 as int)).len() as int + 1] == ' ',
{
}

/// Two numbers with a blank between them are the longitude and the
/// latitude, in this order.
pub proof fn lemma_aixm_position_order(first: Seq<char>, second: Seq<char>)
    requires
        first.len() > 0,
        second.len() > 0,
        forall|i: int| 0 <= i < first.len() ==> !crate::text::is_space(#[trigger] first[i]),
        forall|i: int| 0 <= i < second.len() ==> !crate::text::is_space(#[trigger] second[i]),
    ensures
        aixm_position(first + seq![' '] + second) == match (
            decimal_units(first),
            decimal_units(second),
        ) {
            (Some(lon), Some(lat)) => Some(LatLon(lat as i64, lon as i64)),
            _ => None,
        },
{
    crate::text::lemma_words_of_pair(first, second);
}

} // verus!
