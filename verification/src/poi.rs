//! The point-of-interest dictionary and the translation of waypoint types
//! between the Garmin and Suunto vocabularies.
//!
//! A name is matched against the dictionary by its comparison key (see
//! [`crate::text::normalize_key`]): case, `_`, `-`, `/` and runs of white
//! space make no difference.
use vstd::prelude::*;

use crate::text::{normalize, normalize_key};

verus! {

/// The device vocabulary a GPX file is converted to.
#[derive(Debug, Clone, Copy, PartialEq, Eq, Structural)]
pub enum Vendor {
    Garmin,
    Suunto,
}

/// The lower-case name of a vendor.
pub open spec fn vendor_name(v: Vendor) -> Seq<char> {
    match v {
        Vendor::Garmin => "garmin"@,
        Vendor::Suunto => "suunto"@,
    }
}

impl Vendor {
    /// The lower-case name of the vendor, as used in output file names.
    pub fn name(self) -> (r: &'static str)
        ensures
            r@ == vendor_name(self),
    {
        match self {
            Vendor::Garmin => "garmin",
            Vendor::Suunto => "suunto",
        }
    }

    /// The waypoint child element that carries the point-of-interest type:
    /// both vendors read `<type>`.
    pub fn element(self) -> (r: &'static str)
        ensures
            r@ == "type"@,
    {
        "type"
    }
}

/// One row of the dictionary.
#[derive(Debug)]
pub struct PoiTranslation {
    /// Stable internal name of the entry.
    pub canonical: &'static str,
    /// Value written for Garmin (upper case).
    pub garmin: &'static str,
    /// Value written for Suunto (text label).
    pub suunto: &'static str,
    /// Further names recognised on input.
    pub aliases: Vec<&'static str>,
    /// Name of the associated Lucide icon, where there is one.
    pub icon: Option<&'static str>,
}

/// The mathematical content of a dictionary row.
pub struct PoiEntry {
    pub canonical: Seq<char>,
    pub garmin: Seq<char>,
    pub suunto: Seq<char>,
    pub aliases: Seq<Seq<char>>,
    pub icon: Option<Seq<char>>,
}

pub open spec fn opt_str_view(o: Option<&str>) -> Option<Seq<char>> {
    match o {
        Some(s) => Some(s@),
        None => None,
    }
}

pub open spec fn strs_view(v: Seq<&str>) -> Seq<Seq<char>> {
    v.map_values(|s: &str| s@)
}

impl View for PoiTranslation {
    type V = PoiEntry;

    open spec fn view(&self) -> PoiEntry {
        PoiEntry {
            canonical: self.canonical@,
            garmin: self.garmin@,
            suunto: self.suunto@,
            aliases: strs_view(self.aliases@),
            icon: opt_str_view(self.icon),
        }
    }
}

pub open spec fn entry_view(
    canonical: Seq<char>,
    garmin: Seq<char>,
    suunto: Seq<char>,
    aliases: Seq<Seq<char>>,
    icon: Option<Seq<char>>,
) -> PoiEntry {
    PoiEntry { canonical, garmin, suunto, aliases, icon }
}

impl PoiTranslation {
    fn new(
        canonical: &'static str,
        garmin: &'static str,
        suunto: &'static str,
        aliases: Vec<&'static str>,
        icon: Option<&'static str>,
    ) -> (r: PoiTranslation)
        ensures
            r@ == entry_view(canonical@, garmin@, suunto@, strs_view(aliases@), opt_str_view(icon)),
    {
        PoiTranslation { canonical, garmin, suunto, aliases, icon }
    }
}

fn no_aliases() -> (v: Vec<&'static str>)
    ensures
        strs_view(v@) == Seq::<Seq<char>>::empty(),
{
    let v: Vec<&'static str> = Vec::new();
    assert(strs_view(v@) =~= Seq::<Seq<char>>::empty());
    v
}

/// Number of rows of the dictionary.
pub open spec fn dictionary_len() -> nat {
    41
}

/// Row `i` of the dictionary. Row 0 is the general fallback.
pub open spec fn dictionary_entry(i: int) -> PoiEntry {
    if i == 0 {
        entry_view("poi"@, "WAYPOINT"@, "POI"@, seq!["waypoint"@, "generic"@, "generic point"@, "generic point of interest"@, "basic"@], None)
    } else if i == 1 {
        entry_view("alert"@, "ALERT"@, "Alert"@, seq![], Some("TriangleAlert"@))
    } else if i == 2 {
        entry_view("anchor"@, "ANCHOR"@, "Anchor"@, seq![], Some("Anchor"@))
    } else if i == 3 {
        entry_view("bank"@, "BANK"@, "Bank"@, seq![], Some("Landmark"@))
    } else if i == 4 {
        entry_view("beach"@, "BEACH"@, "Beach"@, seq![], Some("Shell"@))
    } else if i == 5 {
        entry_view("bike_trail"@, "BIKE TRAIL"@, "Bike Trail"@, seq![], Some("Bike"@))
    } else if i == 6 {
        entry_view("binoculars"@, "BINOCULARS"@, "Binoculars"@, seq![], Some("Binoculars"@))
    } else if i == 7 {
        entry_view("bridge"@, "BRIDGE"@, "Bridge"@, seq![], None)
    } else if i == 8 {
        entry_view("building"@, "BUILDING"@, "Building"@, seq![], Some("Building"@))
    } else if i == 9 {
        entry_view("campground"@, "CAMPGROUND"@, "Campground"@, seq![], Some("Tent"@))
    } else if i == 10 {
        entry_view("car"@, "CAR"@, "Car"@, seq![], Some("Car"@))
    } else if i == 11 {
        entry_view("car_repair"@, "CAR REPAIR"@, "Car Repair"@, seq![], Some("Wrench"@))
    } else if i == 12 {
        entry_view("convenience_store"@, "CONVENIENCE STORE"@, "Convenience Store"@, seq![], Some("ShoppingBasket"@))
    } else if i == 13 {
        entry_view("crossing"@, "CROSSING"@, "Crossing"@, seq![], Some("X"@))
    } else if i == 14 {
        entry_view("department_store"@, "DEPARTMENT STORE"@, "Department Store"@, seq![], Some("ShoppingBasket"@))
    } else if i == 15 {
        entry_view("drinking_water"@, "DRINKING WATER"@, "Drinking Water"@, seq![], Some("Droplet"@))
    } else if i == 16 {
        entry_view("exit"@, "EXIT"@, "Exit"@, seq![], Some("DoorOpen"@))
    } else if i == 17 {
        entry_view("lodge"@, "LODGE"@, "Lodge"@, seq![], Some("House"@))
    } else if i == 18 {
        entry_view("lodging"@, "LODGING"@, "Lodging"@, seq![], Some("Bed"@))
    } else if i == 19 {
        entry_view("forest"@, "FOREST"@, "Forest"@, seq![], Some("Trees"@))
    } else if i == 20 {
        entry_view("gas_station"@, "GAS STATION"@, "Gas Station"@, seq![], Some("Fuel"@))
    } else if i == 21 {
        entry_view("ground_transportation"@, "GROUND TRANSPORTATION"@, "Ground Transportation"@, seq![], Some("TrainFront"@))
    } else if i == 22 {
        entry_view("hotel"@, "HOTEL"@, "Hotel"@, seq![], Some("Bed"@))
    } else if i == 23 {
        entry_view("house"@, "HOUSE"@, "House"@, seq![], Some("House"@))
    } else if i == 24 {
        entry_view("information"@, "INFORMATION"@, "Information"@, seq![], Some("Info"@))
    } else if i == 25 {
        entry_view("park"@, "PARK"@, "Park"@, seq![], Some("TreeDeciduous"@))
    } else if i == 26 {
        entry_view("parking_area"@, "PARKING AREA"@, "Parking Area"@, seq![], Some("CircleParking"@))
    } else if i == 27 {
        entry_view("pharmacy"@, "PHARMACY"@, "Pharmacy"@, seq![], Some("Cross"@))
    } else if i == 28 {
        entry_view("picnic_area"@, "PICNIC AREA"@, "Picnic Area"@, seq![], Some("Utensils"@))
    } else if i == 29 {
        entry_view("restaurant"@, "RESTAURANT"@, "Restaurant"@, seq![], Some("Utensils"@))
    } else if i == 30 {
        entry_view("restricted_area"@, "RESTRICTED AREA"@, "Restricted Area"@, seq![], Some("Construction"@))
    } else if i == 31 {
        entry_view("restroom"@, "RESTROOM"@, "Restroom"@, seq![], Some("Toilet"@))
    } else if i == 32 {
        entry_view("road"@, "ROAD"@, "Road"@, seq![], Some("BrickWall"@))
    } else if i == 33 {
        entry_view("scenic_area"@, "SCENIC AREA"@, "Scenic Area"@, seq![], Some("Binoculars"@))
    } else if i == 34 {
        entry_view("shelter"@, "SHELTER"@, "Shelter"@, seq![], Some("Tent"@))
    } else if i == 35 {
        entry_view("shopping_center"@, "SHOPPING CENTER"@, "Shopping Center"@, seq![], Some("ShoppingBasket"@))
    } else if i == 36 {
        entry_view("shower"@, "SHOWER"@, "Shower"@, seq![], Some("ShowerHead"@))
    } else if i == 37 {
        entry_view("summit"@, "SUMMIT"@, "Summit"@, seq![], Some("Mountain"@))
    } else if i == 38 {
        entry_view("telephone"@, "TELEPHONE"@, "Telephone"@, seq![], Some("Phone"@))
    } else if i == 39 {
        entry_view("tunnel"@, "TUNNEL"@, "Tunnel"@, seq![], None)
    } else if i == 40 {
        entry_view("water_source"@, "WATER SOURCE"@, "Water Source"@, seq![], Some("Droplet"@))
    } else {
        entry_view(seq![], seq![], seq![], seq![], None)
    }
}

/// Row `i` of the dictionary.
pub fn poi_entry(i: usize) -> (r: PoiTranslation)
    requires
        i < dictionary_len(),
    ensures
        r@ == dictionary_entry(i as int),
{
    match i {
        0 => {
            let mut aliases: Vec<&'static str> = Vec::new();
            aliases.push("waypoint");
            aliases.push("generic");
            aliases.push("generic point");
            aliases.push("generic point of interest");
            aliases.push("basic");
            assert(strs_view(aliases@) =~= seq![
                "waypoint"@,
                "generic"@,
                "generic point"@,
                "generic point of interest"@,
                "basic"@,
            ]);
            let r = PoiTranslation::new("poi", "WAYPOINT", "POI", aliases, None);
            r
        },
        1 => PoiTranslation::new("alert", "ALERT", "Alert", no_aliases(), Some("TriangleAlert")),
        2 => PoiTranslation::new("anchor", "ANCHOR", "Anchor", no_aliases(), Some("Anchor")),
        3 => PoiTranslation::new("bank", "BANK", "Bank", no_aliases(), Some("Landmark")),
        4 => PoiTranslation::new("beach", "BEACH", "Beach", no_aliases(), Some("Shell")),
        5 => PoiTranslation::new("bike_trail", "BIKE TRAIL", "Bike Trail", no_aliases(), Some("Bike")),
        6 => PoiTranslation::new("binoculars", "BINOCULARS", "Binoculars", no_aliases(), Some("Binoculars")),
        7 => PoiTranslation::new("bridge", "BRIDGE", "Bridge", no_aliases(), None),
        8 => PoiTranslation::new("building", "BUILDING", "Building", no_aliases(), Some("Building")),
        9 => PoiTranslation::new("campground", "CAMPGROUND", "Campground", no_aliases(), Some("Tent")),
        10 => PoiTranslation::new("car", "CAR", "Car", no_aliases(), Some("Car")),
        11 => PoiTranslation::new("car_repair", "CAR REPAIR", "Car Repair", no_aliases(), Some("Wrench")),
        12 => PoiTranslation::new("convenience_store", "CONVENIENCE STORE", "Convenience Store", no_aliases(), Some("ShoppingBasket")),
        13 => PoiTranslation::new("crossing", "CROSSING", "Crossing", no_aliases(), Some("X")),
        14 => PoiTranslation::new("department_store", "DEPARTMENT STORE", "Department Store", no_aliases(), Some("ShoppingBasket")),
        15 => PoiTranslation::new("drinking_water", "DRINKING WATER", "Drinking Water", no_aliases(), Some("Droplet")),
        16 => PoiTranslation::new("exit", "EXIT", "Exit", no_aliases(), Some("DoorOpen")),
        17 => PoiTranslation::new("lodge", "LODGE", "Lodge", no_aliases(), Some("House")),
        18 => PoiTranslation::new("lodging", "LODGING", "Lodging", no_aliases(), Some("Bed")),
        19 => PoiTranslation::new("forest", "FOREST", "Forest", no_aliases(), Some("Trees")),
        20 => PoiTranslation::new("gas_station", "GAS STATION", "Gas Station", no_aliases(), Some("Fuel")),
        21 => PoiTranslation::new("ground_transportation", "GROUND TRANSPORTATION", "Ground Transportation", no_aliases(), Some("TrainFront")),
        22 => PoiTranslation::new("hotel", "HOTEL", "Hotel", no_aliases(), Some("Bed")),
        23 => PoiTranslation::new("house", "HOUSE", "House", no_aliases(), Some("House")),
        24 => PoiTranslation::new("information", "INFORMATION", "Information", no_aliases(), Some("Info")),
        25 => PoiTranslation::new("park", "PARK", "Park", no_aliases(), Some("TreeDeciduous")),
        26 => PoiTranslation::new("parking_area", "PARKING AREA", "Parking Area", no_aliases(), Some("CircleParking")),
        27 => PoiTranslation::new("pharmacy", "PHARMACY", "Pharmacy", no_aliases(), Some("Cross")),
        28 => PoiTranslation::new("picnic_area", "PICNIC AREA", "Picnic Area", no_aliases(), Some("Utensils")),
        29 => PoiTranslation::new("restaurant", "RESTAURANT", "Restaurant", no_aliases(), Some("Utensils")),
        30 => PoiTranslation::new("restricted_area", "RESTRICTED AREA", "Restricted Area", no_aliases(), Some("Construction")),
        31 => PoiTranslation::new("restroom", "RESTROOM", "Restroom", no_aliases(), Some("Toilet")),
        32 => PoiTranslation::new("road", "ROAD", "Road", no_aliases(), Some("BrickWall")),
        33 => PoiTranslation::new("scenic_area", "SCENIC AREA", "Scenic Area", no_aliases(), Some("Binoculars")),
        34 => PoiTranslation::new("shelter", "SHELTER", "Shelter", no_aliases(), Some("Tent")),
        35 => PoiTranslation::new("shopping_center", "SHOPPING CENTER", "Shopping Center", no_aliases(), Some("ShoppingBasket")),
        36 => PoiTranslation::new("shower", "SHOWER", "Shower", no_aliases(), Some("ShowerHead")),
        37 => PoiTranslation::new("summit", "SUMMIT", "Summit", no_aliases(), Some("Mountain")),
        38 => PoiTranslation::new("telephone", "TELEPHONE", "Telephone", no_aliases(), Some("Phone")),
        39 => PoiTranslation::new("tunnel", "TUNNEL", "Tunnel", no_aliases(), None),
        40 => PoiTranslation::new("water_source", "WATER SOURCE", "Water Source", no_aliases(), Some("Droplet")),
        _ => PoiTranslation::new("", "", "", no_aliases(), None),
    }
}

/// The whole dictionary, in order; row 0 is the general fallback.
pub fn poi_dictionary() -> (r: Vec<PoiTranslation>)
    ensures
        r@.len() == dictionary_len(),
        forall|i: int| 0 <= i < dictionary_len() ==> #[trigger] r@[i]@ == dictionary_entry(i),
{
    let mut r: Vec<PoiTranslation> = Vec::new();
    let mut i: usize = 0;
    while i < 41
        invariant
            i <= dictionary_len(),
            r@.len() == i,
            forall|j: int| 0 <= j < i ==> #[trigger] r@[j]@ == dictionary_entry(j),
        decreases 41 - i,
    {
        r.push(poi_entry(i));
        i += 1;
    }
    r
}

} // verus!

verus! {

/// The value written for `target` by a dictionary row.
pub open spec fn vendor_value(e: PoiEntry, target: Vendor) -> Seq<char> {
    match target {
        Vendor::Garmin => e.garmin,
        Vendor::Suunto => e.suunto,
    }
}

/// Whether row `e` matches the comparison key `key` at a level of the search:
/// level 0 compares the Suunto value, level 1 the Garmin value, level 2 the
/// aliases.
pub open spec fn entry_matches(e: PoiEntry, key: Seq<char>, level: int) -> bool {
    if level == 0 {
        normalize_key(e.suunto) == key
    } else if level == 1 {
        normalize_key(e.garmin) == key
    } else {
        exists|j: int| 0 <= j < e.aliases.len() && normalize_key(#[trigger] e.aliases[j]) == key
    }
}

/// The first row at index `from` or later that matches `key` at `level`.
pub open spec fn first_match(key: Seq<char>, level: int, from: nat) -> Option<nat>
    decreases dictionary_len() - from,
{
    if from >= dictionary_len() {
        None
    } else if entry_matches(dictionary_entry(from as int), key, level) {
        Some(from)
    } else {
        first_match(key, level, from + 1)
    }
}

/// The row a comparison key selects: the first row whose Suunto value
/// matches; failing that, the first whose Garmin value matches; failing
/// that, the first with a matching alias. Suunto values come first because
/// some of them equal the Garmin value of another row.
pub open spec fn lookup(key: Seq<char>) -> Option<nat> {
    match first_match(key, 0, 0) {
        Some(i) => Some(i),
        None => match first_match(key, 1, 0) {
            Some(i) => Some(i),
            None => first_match(key, 2, 0),
        },
    }
}

pub open spec fn opt_index_view(o: Option<usize>) -> Option<nat> {
    match o {
        Some(i) => Some(i as nat),
        None => None,
    }
}

fn entry_matches_exec(e: &PoiTranslation, key: &String, level: u8) -> (r: bool)
    requires
        level <= 2,
    ensures
        r == entry_matches(e@, key@, level as int),
{
    if level == 0 {
        normalize(e.suunto) == *key
    } else if level == 1 {
        normalize(e.garmin) == *key
    } else {
        let mut j: usize = 0;
        while j < e.aliases.len()
            invariant
                0 <= j <= e.aliases@.len(),
                e@.aliases.len() == e.aliases@.len(),
                level == 2,
                forall|k: int| 0 <= k < j ==> normalize_key(#[trigger] e@.aliases[k]) != key@,
            decreases e.aliases.len() - j,
        {
            assert(e@.aliases[j as int] == e.aliases@[j as int]@);
            if normalize(e.aliases[j]) == *key {
                assert(normalize_key(e@.aliases[j as int]) == key@);
                return true;
            }
            j += 1;
        }
        false
    }
}

fn first_match_exec(key: &String, level: u8) -> (r: Option<usize>)
    requires
        level <= 2,
    ensures
        opt_index_view(r) == first_match(key@, level as int, 0),
        r matches Some(i) ==> i < dictionary_len(),
{
    let mut i: usize = 0;
    while i < 41
        invariant
            level <= 2,
            i <= dictionary_len(),
            first_match(key@, level as int, 0) == first_match(key@, level as int, i as nat),
        decreases 41 - i,
    {
        let e = poi_entry(i);
        if entry_matches_exec(&e, key, level) {
            return Some(i);
        }
        i += 1;
    }
    None
}

/// The dictionary row that `value` names, by its comparison key (see
/// [`lookup`]).
pub fn find(value: &str) -> (r: Option<usize>)
    ensures
        opt_index_view(r) == lookup(normalize_key(value@)),
        r matches Some(i) ==> i < dictionary_len(),
{
    let key = normalize(value);
    match first_match_exec(&key, 0) {
        Some(i) => Some(i),
        None => match first_match_exec(&key, 1) {
            Some(i) => Some(i),
            None => first_match_exec(&key, 2),
        },
    }
}

} // verus!

verus! {

/// The general fallback value of a vendor, row 0 of the dictionary.
pub open spec fn fallback_value(target: Vendor) -> Seq<char> {
    match target {
        Vendor::Garmin => "WAYPOINT"@,
        Vendor::Suunto => "POI"@,
    }
}

/// The outcome of translating the type of one waypoint.
pub struct Translation<'a> {
    /// The value to write for the target vendor.
    pub value: &'static str,
    /// The source text the value was derived from, if the waypoint had one.
    pub source: Option<&'a str>,
    /// Whether the waypoint had a type or symbol that the dictionary does not know.
    pub used_fallback: bool,
}

/// The mathematical content of a [`Translation`].
pub struct TranslationView {
    pub value: Seq<char>,
    pub source: Option<Seq<char>>,
    pub used_fallback: bool,
}

impl<'a> View for Translation<'a> {
    type V = TranslationView;

    open spec fn view(&self) -> TranslationView {
        TranslationView {
            value: self.value@,
            source: opt_str_view(self.source),
            used_fallback: self.used_fallback,
        }
    }
}

/// The row that a candidate names, if it is present and known.
pub open spec fn known_row(candidate: Option<Seq<char>>) -> Option<nat> {
    match candidate {
        Some(s) => lookup(normalize_key(s)),
        None => None,
    }
}

/// The order in which the two source fields are tried: the field that the
/// target itself writes first (Garmin: `<sym>` then `<type>`; Suunto:
/// `<type>` then `<sym>`).
pub open spec fn candidates(
    symbol: Option<Seq<char>>,
    poi_type: Option<Seq<char>>,
    target: Vendor,
) -> (Option<Seq<char>>, Option<Seq<char>>) {
    match target {
        Vendor::Garmin => (symbol, poi_type),
        Vendor::Suunto => (poi_type, symbol),
    }
}

/// The translation of a waypoint whose `<sym>` and `<type>` texts are
/// `symbol` and `poi_type`: the first candidate that the dictionary knows
/// gives the target's value of its row; when neither is known the target's
/// fallback value is used, the source is the symbol (else the type) and the
/// fallback counts as used when either field was present.
pub open spec fn translation_of(
    symbol: Option<Seq<char>>,
    poi_type: Option<Seq<char>>,
    target: Vendor,
) -> TranslationView {
    let (first, second) = candidates(symbol, poi_type, target);
    if known_row(first) is Some {
        TranslationView {
            value: vendor_value(dictionary_entry(known_row(first)->0 as int), target),
            source: first,
            used_fallback: false,
        }
    } else if known_row(second) is Some {
        TranslationView {
            value: vendor_value(dictionary_entry(known_row(second)->0 as int), target),
            source: second,
            used_fallback: false,
        }
    } else {
        TranslationView {
            value: fallback_value(target),
            source: if symbol is Some {
                symbol
            } else {
                poi_type
            },
            used_fallback: symbol is Some || poi_type is Some,
        }
    }
}

fn row_value(i: usize, target: Vendor) -> (r: &'static str)
    requires
        i < dictionary_len(),
    ensures
        r@ == vendor_value(dictionary_entry(i as int), target),
{
    let e = poi_entry(i);
    match target {
        Vendor::Garmin => e.garmin,
        Vendor::Suunto => e.suunto,
    }
}

/// Translates the type of a waypoint whose `<sym>` and `<type>` texts are
/// `symbol` and `poi_type` (see [`translation_of`]).
pub fn translate<'a>(symbol: Option<&'a str>, poi_type: Option<&'a str>, target: Vendor) -> (r:
    Translation<'a>)
    ensures
        r@ == translation_of(opt_str_view(symbol), opt_str_view(poi_type), target),
{
    let (first, second) = match target {
        Vendor::Garmin => (symbol, poi_type),
        Vendor::Suunto => (poi_type, symbol),
    };
    if let Some(source) = first {
        if let Some(i) = find(source) {
            return Translation { value: row_value(i, target), source: Some(source), used_fallback: false };
        }
    }
    if let Some(source) = second {
        if let Some(i) = find(source) {
            return Translation { value: row_value(i, target), source: Some(source), used_fallback: false };
        }
    }
    let value = match target {
        Vendor::Garmin => "WAYPOINT",
        Vendor::Suunto => "POI",
    };
    let source = match symbol {
        Some(s) => Some(s),
        None => poi_type,
    };
    Translation { value, source, used_fallback: symbol.is_some() || poi_type.is_some() }
}

} // verus!
