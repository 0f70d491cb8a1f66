use universal_gpx_poi::poi::{find, poi_dictionary, translate, Vendor};
use universal_gpx_poi::text::normalize;

#[test]
fn translates_values_for_both_targets() {
    assert_eq!(
        translate(Some("Drinking Water"), None, Vendor::Suunto).value,
        "Drinking Water"
    );
    assert_eq!(
        translate(None, Some("Summit"), Vendor::Garmin).value,
        "SUMMIT"
    );
    assert_eq!(
        translate(Some("LODGE"), None, Vendor::Suunto).value,
        "Lodge"
    );
}

#[test]
fn accepts_normalized_values() {
    assert_eq!(
        translate(Some("car_repair"), None, Vendor::Suunto).value,
        "Car Repair"
    );
}

#[test]
fn waypoint_is_the_only_general_fallback() {
    let dictionary = poi_dictionary();
    assert_eq!(dictionary[0].garmin, "WAYPOINT");
    assert_eq!(dictionary[0].suunto, "POI");
    assert!(
        dictionary[1..]
            .iter()
            .all(|entry| entry.garmin != "WAYPOINT" && entry.suunto != "POI")
    );
}

#[test]
fn dictionary_matches_the_scratch_mapping() {
    let expected = [
        ("alert", "Alert", Some("TriangleAlert")),
        ("anchor", "Anchor", Some("Anchor")),
        ("bank", "Bank", Some("Landmark")),
        ("beach", "Beach", Some("Shell")),
        ("bike_trail", "Bike Trail", Some("Bike")),
        ("binoculars", "Binoculars", Some("Binoculars")),
        ("bridge", "Bridge", None),
        ("building", "Building", Some("Building")),
        ("campground", "Campground", Some("Tent")),
        ("car", "Car", Some("Car")),
        ("car_repair", "Car Repair", Some("Wrench")),
        (
            "convenience_store",
            "Convenience Store",
            Some("ShoppingBasket"),
        ),
        ("crossing", "Crossing", Some("X")),
        (
            "department_store",
            "Department Store",
            Some("ShoppingBasket"),
        ),
        ("drinking_water", "Drinking Water", Some("Droplet")),
        ("exit", "Exit", Some("DoorOpen")),
        ("lodge", "Lodge", Some("House")),
        ("lodging", "Lodging", Some("Bed")),
        ("forest", "Forest", Some("Trees")),
        ("gas_station", "Gas Station", Some("Fuel")),
        (
            "ground_transportation",
            "Ground Transportation",
            Some("TrainFront"),
        ),
        ("hotel", "Hotel", Some("Bed")),
        ("house", "House", Some("House")),
        ("information", "Information", Some("Info")),
        ("park", "Park", Some("TreeDeciduous")),
        ("parking_area", "Parking Area", Some("CircleParking")),
        ("pharmacy", "Pharmacy", Some("Cross")),
        ("picnic_area", "Picnic Area", Some("Utensils")),
        ("restaurant", "Restaurant", Some("Utensils")),
        ("restricted_area", "Restricted Area", Some("Construction")),
        ("restroom", "Restroom", Some("Toilet")),
        ("road", "Road", Some("BrickWall")),
        ("scenic_area", "Scenic Area", Some("Binoculars")),
        ("shelter", "Shelter", Some("Tent")),
        ("shopping_center", "Shopping Center", Some("ShoppingBasket")),
        ("shower", "Shower", Some("ShowerHead")),
        ("summit", "Summit", Some("Mountain")),
        ("telephone", "Telephone", Some("Phone")),
        ("tunnel", "Tunnel", None),
        ("water_source", "Water Source", Some("Droplet")),
    ];

    let dictionary = poi_dictionary();
    assert_eq!(dictionary.len(), expected.len() + 1);
    for (entry, (canonical, suunto, icon)) in dictionary[1..].iter().zip(expected) {
        assert_eq!(entry.canonical, canonical);
        assert_eq!(entry.garmin, suunto.to_uppercase());
        assert_eq!(entry.suunto, suunto);
        assert_eq!(entry.icon, icon);
    }
}

#[test]
fn normalize_trims_lowercases_and_collapses() {
    assert_eq!(normalize("  Car__Repair  "), "car repair");
    assert_eq!(normalize("GAS-STATION"), "gas station");
    assert_eq!(normalize("a /\t b"), "a b");
    assert_eq!(normalize(" \u{3000} "), "");
    assert_eq!(normalize("ÀB"), "Àb");
}

#[test]
fn find_prefers_suunto_names_then_garmin_then_aliases() {
    assert_eq!(find("Restaurant"), Some(29));
    assert_eq!(find("BIKE TRAIL"), Some(5));
    assert_eq!(find("generic point"), Some(0));
    assert_eq!(find("Alien base"), None);
}

#[test]
fn fallback_when_nothing_is_known() {
    let t = translate(Some("Alien base"), Some("Peak"), Vendor::Garmin);
    assert_eq!(t.value, "WAYPOINT");
    assert_eq!(t.source, Some("Alien base"));
    assert!(t.used_fallback);
    let t = translate(None, Some("Peak"), Vendor::Suunto);
    assert_eq!(t.value, "POI");
    assert_eq!(t.source, Some("Peak"));
    assert!(t.used_fallback);
    let t = translate(None, None, Vendor::Suunto);
    assert_eq!(t.value, "POI");
    assert_eq!(t.source, None);
    assert!(!t.used_fallback);
}

#[test]
fn the_target_field_is_tried_first() {
    let t = translate(Some("Summit"), Some("Lodge"), Vendor::Garmin);
    assert_eq!(t.value, "SUMMIT");
    assert_eq!(t.source, Some("Summit"));
    let t = translate(Some("Summit"), Some("Lodge"), Vendor::Suunto);
    assert_eq!(t.value, "Lodge");
    assert_eq!(t.source, Some("Lodge"));
    let t = translate(Some("Summit"), Some("Martian"), Vendor::Suunto);
    assert_eq!(t.value, "Summit");
    assert_eq!(t.source, Some("Summit"));
}

#[test]
fn every_dictionary_value_translates_to_itself() {
    for entry in poi_dictionary() {
        assert_eq!(translate(None, Some(entry.garmin), Vendor::Garmin).value, entry.garmin);
        assert_eq!(translate(Some(entry.garmin), None, Vendor::Garmin).value, entry.garmin);
        assert_eq!(translate(None, Some(entry.suunto), Vendor::Suunto).value, entry.suunto);
        assert_eq!(translate(Some(entry.suunto), None, Vendor::Suunto).value, entry.suunto);
    }
}

#[test]
fn vendor_names() {
    assert_eq!(Vendor::Garmin.name(), "garmin");
    assert_eq!(Vendor::Suunto.name(), "suunto");
    assert_eq!(Vendor::Garmin.element(), "type");
    assert_eq!(Vendor::Suunto.element(), "type");
}

#[test]
fn every_value_names_its_own_row() {
    for (i, entry) in poi_dictionary().iter().enumerate() {
        assert_eq!(find(entry.garmin), Some(i));
        assert_eq!(find(entry.suunto), Some(i));
    }
}

#[test]
fn a_translated_value_translates_to_itself_again() {
    let cases = [
        (Some("Alien base"), Some("Peak"), Vendor::Garmin),
        (Some("Alien base"), None, Vendor::Suunto),
        (None, Some("restaurant"), Vendor::Garmin),
        (Some("car_repair"), Some("Lodge"), Vendor::Suunto),
        (None, None, Vendor::Garmin),
        (Some("WAYPOINT"), None, Vendor::Suunto),
    ];
    for (symbol, poi_type, target) in cases {
        let value = translate(symbol, poi_type, target).value;
        let again = translate(symbol, Some(value), target);
        assert_eq!(again.value, value);
        assert!(!again.used_fallback);
        assert!(again.source.is_some());
    }
}

#[test]
fn the_generic_value_comes_exactly_from_unknown_or_generic_names() {
    for name in ["POI", "WAYPOINT", "waypoint", "Generic", "generic point", "generic point of interest", "Basic"] {
        let t = translate(Some(name), None, Vendor::Suunto);
        assert_eq!(t.value, "POI");
        assert!(!t.used_fallback);
        assert_eq!(translate(Some(name), None, Vendor::Garmin).value, "WAYPOINT");
    }
    let t = translate(Some("Alien base"), None, Vendor::Garmin);
    assert_eq!(t.value, "WAYPOINT");
    assert!(t.used_fallback);
    assert_eq!(translate(Some("Summit"), None, Vendor::Suunto).value, "Summit");
}

#[test]
fn garmin_values_are_suunto_values_upper_cased() {
    for name in ["car_repair", "Drinking Water", "lodge", "SCENIC AREA"] {
        let suunto = translate(Some(name), None, Vendor::Suunto).value;
        let garmin = translate(Some(name), None, Vendor::Garmin).value;
        assert_eq!(garmin, suunto.to_ascii_uppercase());
    }
}
