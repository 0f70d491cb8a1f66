//! The comparison keys of the dictionary's values: the keys of different
//! rows differ, so every value of a row names that row again, and a
//! translation of an already translated waypoint gives the same value.
use vstd::prelude::*;

use crate::poi::{
    candidates, dictionary_entry, dictionary_len, entry_matches, fallback_value, first_match,
    known_row, lookup, translation_of, vendor_value, Vendor,
};
use crate::text::{ascii_uppercase, normalize_key, squeeze};

verus! {

/// The comparison key of the Suunto value of row `i`.
pub open spec fn row_key(i: int) -> Seq<char> {
    normalize_key(dictionary_entry(i).suunto)
}

/// The length and the first three characters of a text.
pub open spec fn key_prefix(s: Seq<char>) -> (nat, char, char, char) {
    (s.len(), s[0], s[1], s[2])
}

/// The length and the first three characters of [`row_key`] for each row.
spec fn row_prefix(i: int) -> (nat, char, char, char) {
    if i == 0 {
        (3, 'p', 'o', 'i')
    } else if i == 1 {
        (5, 'a', 'l', 'e')
    } else if i == 2 {
        (6, 'a', 'n', 'c')
    } else if i == 3 {
        (4, 'b', 'a', 'n')
    } else if i == 4 {
        (5, 'b', 'e', 'a')
    } else if i == 5 {
        (10, 'b', 'i', 'k')
    } else if i == 6 {
        (10, 'b', 'i', 'n')
    } else if i == 7 {
        (6, 'b', 'r', 'i')
    } else if i == 8 {
        (8, 'b', 'u', 'i')
    } else if i == 9 {
        (10, 'c', 'a', 'm')
    } else if i == 10 {
        (3, 'c', 'a', 'r')
    } else if i == 11 {
        (10, 'c', 'a', 'r')
    } else if i == 12 {
        (17, 'c', 'o', 'n')
    } else if i == 13 {
        (8, 'c', 'r', 'o')
    } else if i == 14 {
        (16, 'd', 'e', 'p')
    } else if i == 15 {
        (14, 'd', 'r', 'i')
    } else if i == 16 {
        (4, 'e', 'x', 'i')
    } else if i == 17 {
        (5, 'l', 'o', 'd')
    } else if i == 18 {
        (7, 'l', 'o', 'd')
    } else if i == 19 {
        (6, 'f', 'o', 'r')
    } else if i == 20 {
        (11, 'g', 'a', 's')
    } else if i == 21 {
        (21, 'g', 'r', 'o')
    } else if i == 22 {
        (5, 'h', 'o', 't')
    } else if i == 23 {
        (5, 'h', 'o', 'u')
    } else if i == 24 {
        (11, 'i', 'n', 'f')
    } else if i == 25 {
        (4, 'p', 'a', 'r')
    } else if i == 26 {
        (12, 'p', 'a', 'r')
    } else if i == 27 {
        (8, 'p', 'h', 'a')
    } else if i == 28 {
        (11, 'p', 'i', 'c')
    } else if i == 29 {
        (10, 'r', 'e', 's')
    } else if i == 30 {
        (15, 'r', 'e', 's')
    } else if i == 31 {
        (8, 'r', 'e', 's')
    } else if i == 32 {
        (4, 'r', 'o', 'a')
    } else if i == 33 {
        (11, 's', 'c', 'e')
    } else if i == 34 {
        (7, 's', 'h', 'e')
    } else if i == 35 {
        (15, 's', 'h', 'o')
    } else if i == 36 {
        (6, 's', 'h', 'o')
    } else if i == 37 {
        (6, 's', 'u', 'm')
    } else if i == 38 {
        (9, 't', 'e', 'l')
    } else if i == 39 {
        (6, 't', 'u', 'n')
    } else if i == 40 {
        (12, 'w', 'a', 't')
    } else {
        (0, ' ', ' ', ' ')
    }
}

/// What evaluating the comparison keys of row `i` shows: the length and
/// first characters of the key of its Suunto value, and that its Garmin
/// value has the same key (row 0: "waypoint", which no Suunto value has).
spec fn row_key_facts(i: int) -> bool {
    &&& key_prefix(row_key(i)) == row_prefix(i)
    &&& i > 0 ==> normalize_key(dictionary_entry(i).garmin) == row_key(i)
    &&& i == 0 ==> key_prefix(normalize_key(dictionary_entry(i).garmin)) == (8nat, 'w', 'a', 'y')
}

#[verifier::spinoff_prover]
#[verifier::rlimit(60)]
proof fn lemma_row_key_from_0(i: int)
    requires
        0 <= i < 6,
    ensures
        row_key_facts(i),
{
    if i == 0 {
        assert(row_key_facts(i)) by {
            reveal_with_fuel(squeeze, 9);
            reveal_strlit("POI");
            reveal_strlit("WAYPOINT");
        }
    } else if i == 1 {
        assert(row_key_facts(i)) by {
            reveal_with_fuel(squeeze, 6);
            reveal_strlit("Alert");
            reveal_strlit("ALERT");
        }
    } else if i == 2 {
        assert(row_key_facts(i)) by {
            reveal_with_fuel(squeeze, 7);
            reveal_strlit("Anchor");
            reveal_strlit("ANCHOR");
        }
    } else if i == 3 {
        assert(row_key_facts(i)) by {
            reveal_with_fuel(squeeze, 5);
            reveal_strlit("Bank");
            reveal_strlit("BANK");
        }
    } else if i == 4 {
        assert(row_key_facts(i)) by {
            reveal_with_fuel(squeeze, 6);
            reveal_strlit("Beach");
            reveal_strlit("BEACH");
        }
    } else if i == 5 {
        assert(row_key_facts(i)) by {
            reveal_with_fuel(squeeze, 11);
            reveal_strlit("Bike Trail");
            reveal_strlit("BIKE TRAIL");
        }
    }
}

#[verifier::spinoff_prover]
#[verifier::rlimit(60)]
proof fn lemma_row_key_from_6(i: int)
    requires
        6 <= i < 11,
    ensures
        row_key_facts(i),
{
    if i == 6 {
        assert(row_key_facts(i)) by {
            reveal_with_fuel(squeeze, 11);
            reveal_strlit("Binoculars");
            reveal_strlit("BINOCULARS");
        }
    } else if i == 7 {
        assert(row_key_facts(i)) by {
            reveal_with_fuel(squeeze, 7);
            reveal_strlit("Bridge");
            reveal_strlit("BRIDGE");
        }
    } else if i == 8 {
        assert(row_key_facts(i)) by {
            reveal_with_fuel(squeeze, 9);
            reveal_strlit("Building");
            reveal_strlit("BUILDING");
        }
    } else if i == 9 {
        assert(row_key_facts(i)) by {
            reveal_with_fuel(squeeze, 11);
            reveal_strlit("Campground");
            reveal_strlit("CAMPGROUND");
        }
    } else if i == 10 {
        assert(row_key_facts(i)) by {
            reveal_with_fuel(squeeze, 4);
            reveal_strlit("Car");
            reveal_strlit("CAR");
        }
    }
}

#[verifier::spinoff_prover]
#[verifier::rlimit(60)]
proof fn lemma_row_key_from_11(i: int)
    requires
        11 <= i < 15,
    ensures
        row_key_facts(i),
{
    if i == 11 {
        assert(row_key_facts(i)) by {
            reveal_with_fuel(squeeze, 11);
            reveal_strlit("Car Repair");
            reveal_strlit("CAR REPAIR");
        }
    } else if i == 12 {
        assert(row_key_facts(i)) by {
            reveal_with_fuel(squeeze, 18);
            reveal_strlit("Convenience Store");
            reveal_strlit("CONVENIENCE STORE");
        }
    } else if i == 13 {
        assert(row_key_facts(i)) by {
            reveal_with_fuel(squeeze, 9);
            reveal_strlit("Crossing");
            reveal_strlit("CROSSING");
        }
    } else if i == 14 {
        assert(row_key_facts(i)) by {
            reveal_with_fuel(squeeze, 17);
            reveal_strlit("Department Store");
            reveal_strlit("DEPARTMENT STORE");
        }
    }
}

#[verifier::spinoff_prover]
#[verifier::rlimit(60)]
proof fn lemma_row_key_from_15(i: int)
    requires
        15 <= i < 20,
    ensures
        row_key_facts(i),
{
    if i == 15 {
        assert(row_key_facts(i)) by {
            reveal_with_fuel(squeeze, 15);
            reveal_strlit("Drinking Water");
            reveal_strlit("DRINKING WATER");
        }
    } else if i == 16 {
        assert(row_key_facts(i)) by {
            reveal_with_fuel(squeeze, 5);
            reveal_strlit("Exit");
            reveal_strlit("EXIT");
        }
    } else if i == 17 {
        assert(row_key_facts(i)) by {
            reveal_with_fuel(squeeze, 6);
            reveal_strlit("Lodge");
            reveal_strlit("LODGE");
        }
    } else if i == 18 {
        assert(row_key_facts(i)) by {
            reveal_with_fuel(squeeze, 8);
            reveal_strlit("Lodging");
            reveal_strlit("LODGING");
        }
    } else if i == 19 {
        assert(row_key_facts(i)) by {
            reveal_with_fuel(squeeze, 7);
            reveal_strlit("Forest");
            reveal_strlit("FOREST");
        }
    }
}

#[verifier::spinoff_prover]
#[verifier::rlimit(60)]
proof fn lemma_row_key_from_20(i: int)
    requires
        20 <= i < 24,
    ensures
        row_key_facts(i),
{
    if i == 20 {
        assert(row_key_facts(i)) by {
            reveal_with_fuel(squeeze, 12);
            reveal_strlit("Gas Station");
            reveal_strlit("GAS STATION");
        }
    } else if i == 21 {
        assert(row_key_facts(i)) by {
            reveal_with_fuel(squeeze, 22);
            reveal_strlit("Ground Transportation");
            reveal_strlit("GROUND TRANSPORTATION");
        }
    } else if i == 22 {
        assert(row_key_facts(i)) by {
            reveal_with_fuel(squeeze, 6);
            reveal_strlit("Hotel");
            reveal_strlit("HOTEL");
        }
    } else if i == 23 {
        assert(row_key_facts(i)) by {
            reveal_with_fuel(squeeze, 6);
            reveal_strlit("House");
            reveal_strlit("HOUSE");
        }
    }
}

#[verifier::spinoff_prover]
#[verifier::rlimit(60)]
proof fn lemma_row_key_from_24(i: int)
    requires
        24 <= i < 28,
    ensures
        row_key_facts(i),
{
    if i == 24 {
        assert(row_key_facts(i)) by {
            reveal_with_fuel(squeeze, 12);
            reveal_strlit("Information");
            reveal_strlit("INFORMATION");
        }
    } else if i == 25 {
        assert(row_key_facts(i)) by {
            reveal_with_fuel(squeeze, 5);
            reveal_strlit("Park");
            reveal_strlit("PARK");
        }
    } else if i == 26 {
        assert(row_key_facts(i)) by {
            reveal_with_fuel(squeeze, 13);
            reveal_strlit("Parking Area");
            reveal_strlit("PARKING AREA");
        }
    } else if i == 27 {
        assert(row_key_facts(i)) by {
            reveal_with_fuel(squeeze, 9);
            reveal_strlit("Pharmacy");
            reveal_strlit("PHARMACY");
        }
    }
}

#[verifier::spinoff_prover]
#[verifier::rlimit(60)]
proof fn lemma_row_key_from_28(i: int)
    requires
        28 <= i < 32,
    ensures
        row_key_facts(i),
{
    if i == 28 {
        assert(row_key_facts(i)) by {
            reveal_with_fuel(squeeze, 12);
            reveal_strlit("Picnic Area");
            reveal_strlit("PICNIC AREA");
        }
    } else if i == 29 {
        assert(row_key_facts(i)) by {
            reveal_with_fuel(squeeze, 11);
            reveal_strlit("Restaurant");
            reveal_strlit("RESTAURANT");
        }
    } else if i == 30 {
        assert(row_key_facts(i)) by {
            reveal_with_fuel(squeeze, 16);
            reveal_strlit("Restricted Area");
            reveal_strlit("RESTRICTED AREA");
        }
    } else if i == 31 {
        assert(row_key_facts(i)) by {
            reveal_with_fuel(squeeze, 9);
            reveal_strlit("Restroom");
            reveal_strlit("RESTROOM");
        }
    }
}

#[verifier::spinoff_prover]
#[verifier::rlimit(60)]
proof fn lemma_row_key_from_32(i: int)
    requires
        32 <= i < 36,
    ensures
        row_key_facts(i),
{
    if i == 32 {
        assert(row_key_facts(i)) by {
            reveal_with_fuel(squeeze, 5);
            reveal_strlit("Road");
            reveal_strlit("ROAD");
        }
    } else if i == 33 {
        assert(row_key_facts(i)) by {
            reveal_with_fuel(squeeze, 12);
            reveal_strlit("Scenic Area");
            reveal_strlit("SCENIC AREA");
        }
    } else if i == 34 {
        assert(row_key_facts(i)) by {
            reveal_with_fuel(squeeze, 8);
            reveal_strlit("Shelter");
            reveal_strlit("SHELTER");
        }
    } else if i == 35 {
        assert(row_key_facts(i)) by {
            reveal_with_fuel(squeeze, 16);
            reveal_strlit("Shopping Center");
            reveal_strlit("SHOPPING CENTER");
        }
    }
}

#[verifier::spinoff_prover]
#[verifier::rlimit(60)]
proof fn lemma_row_key_from_36(i: int)
    requires
        36 <= i < 41,
    ensures
        row_key_facts(i),
{
    if i == 36 {
        assert(row_key_facts(i)) by {
            reveal_with_fuel(squeeze, 7);
            reveal_strlit("Shower");
            reveal_strlit("SHOWER");
        }
    } else if i == 37 {
        assert(row_key_facts(i)) by {
            reveal_with_fuel(squeeze, 7);
            reveal_strlit("Summit");
            reveal_strlit("SUMMIT");
        }
    } else if i == 38 {
        assert(row_key_facts(i)) by {
            reveal_with_fuel(squeeze, 10);
            reveal_strlit("Telephone");
            reveal_strlit("TELEPHONE");
        }
    } else if i == 39 {
        assert(row_key_facts(i)) by {
            reveal_with_fuel(squeeze, 7);
            reveal_strlit("Tunnel");
            reveal_strlit("TUNNEL");
        }
    } else if i == 40 {
        assert(row_key_facts(i)) by {
            reveal_with_fuel(squeeze, 13);
            reveal_strlit("Water Source");
            reveal_strlit("WATER SOURCE");
        }
    }
}

proof fn lemma_row_key(i: int)
    requires
        0 <= i < dictionary_len(),
    ensures
        row_key_facts(i),
{
    if i < 6 {
        lemma_row_key_from_0(i);
    } else if i < 11 {
        lemma_row_key_from_6(i);
    } else if i < 15 {
        lemma_row_key_from_11(i);
    } else if i < 20 {
        lemma_row_key_from_15(i);
    } else if i < 24 {
        lemma_row_key_from_20(i);
    } else if i < 28 {
        lemma_row_key_from_24(i);
    } else if i < 32 {
        lemma_row_key_from_28(i);
    } else if i < 36 {
        lemma_row_key_from_32(i);
    } else if i < 41 {
        lemma_row_key_from_36(i);
    }
}

proof fn lemma_row_prefixes_distinct()
    ensures
        forall|j: int, k: int| 0 <= j < k < dictionary_len() ==> row_prefix(j) != row_prefix(k),
        forall|j: int| 0 <= j < dictionary_len() ==> row_prefix(j) != (8nat, 'w', 'a', 'y'),
{
}

/// Different rows have different keys.
proof fn lemma_row_keys_distinct(j: int, k: int)
    requires
        0 <= j < dictionary_len(),
        0 <= k < dictionary_len(),
        j != k,
    ensures
        row_key(j) != row_key(k),
{
    lemma_row_key(j);
    lemma_row_key(k);
    lemma_row_prefixes_distinct();
    if j > k {
        assert(row_prefix(k) != row_prefix(j));
    }
}

proof fn lemma_first_match_at(key: Seq<char>, level: int, from: nat, i: nat)
    requires
        from <= i < dictionary_len(),
        entry_matches(dictionary_entry(i as int), key, level),
        forall|j: int| from <= j < i ==> !entry_matches(#[trigger] dictionary_entry(j), key, level),
    ensures
        first_match(key, level, from) == Some(i),
    decreases i - from,
{
    if from < i {
        lemma_first_match_at(key, level, from + 1, i);
    }
}

proof fn lemma_first_match_none(key: Seq<char>, level: int, from: nat)
    requires
        forall|j: int|
            from <= j < dictionary_len() ==> !entry_matches(#[trigger] dictionary_entry(j), key, level),
    ensures
        first_match(key, level, from) is None,
    decreases dictionary_len() - from,
{
    if from < dictionary_len() {
        lemma_first_match_none(key, level, from + 1);
    }
}

/// Every value that the dictionary writes names its own row again: looking
/// up the key of row `k`'s value for either vendor finds row `k`.
pub proof fn lemma_value_names_its_row(k: int, target: Vendor)
    requires
        0 <= k < dictionary_len(),
    ensures
        lookup(normalize_key(vendor_value(dictionary_entry(k), target))) == Some(k as nat),
{
    lemma_row_key(k);
    lemma_row_prefixes_distinct();
    if target == Vendor::Suunto || k > 0 {
        let key = row_key(k);
        assert(normalize_key(vendor_value(dictionary_entry(k), target)) == key);
        assert forall|j: int| 0 <= j < k implies !entry_matches(
            #[trigger] dictionary_entry(j),
            key,
            0,
        ) by {
            lemma_row_keys_distinct(j, k);
        }
        lemma_first_match_at(key, 0, 0, k as nat);
    } else {
        let key = normalize_key(dictionary_entry(0).garmin);
        assert forall|j: int| 0 <= j < dictionary_len() implies !entry_matches(
            #[trigger] dictionary_entry(j),
            key,
            0,
        ) by {
            lemma_row_key(j);
        }
        lemma_first_match_none(key, 0, 0);
        lemma_first_match_at(key, 1, 0, 0);
    }
}

proof fn lemma_first_match_in_range(key: Seq<char>, level: int, from: nat)
    ensures
        first_match(key, level, from) matches Some(k) ==> from <= k < dictionary_len(),
    decreases dictionary_len() - from,
{
    if from < dictionary_len() {
        lemma_first_match_in_range(key, level, from + 1);
    }
}

/// The row that a known candidate names is a row of the dictionary.
pub proof fn lemma_known_row_in_range(candidate: Option<Seq<char>>)
    ensures
        known_row(candidate) matches Some(k) ==> k < dictionary_len(),
{
    if let Some(s) = candidate {
        let key = normalize_key(s);
        lemma_first_match_in_range(key, 0, 0);
        lemma_first_match_in_range(key, 1, 0);
        lemma_first_match_in_range(key, 2, 0);
    }
}

/// A translated waypoint translates to the same value again: with its
/// `<sym>` unchanged and its `<type>` holding the value that the first
/// translation wrote, a second translation for the same vendor writes that
/// value once more, from a source that the dictionary knows (so the
/// waypoint is counted as translated, never as unknown).
pub proof fn lemma_translation_idempotent(
    symbol: Option<Seq<char>>,
    poi_type: Option<Seq<char>>,
    target: Vendor,
)
    ensures
        ({
            let value = translation_of(symbol, poi_type, target).value;
            let again = translation_of(symbol, Some(value), target);
            &&& again.value == value
            &&& !again.used_fallback
            &&& again.source is Some
        }),
{
    let (first, second) = candidates(symbol, poi_type, target);
    let value = translation_of(symbol, poi_type, target).value;
    lemma_known_row_in_range(first);
    lemma_known_row_in_range(second);
    let row: int = if known_row(first) is Some {
        known_row(first)->0 as int
    } else if known_row(second) is Some {
        known_row(second)->0 as int
    } else {
        0
    };
    assert(0 <= row < dictionary_len());
    assert(value == vendor_value(dictionary_entry(row), target));
    lemma_value_names_its_row(row, target);
    assert(known_row(Some(value)) == Some(row as nat));
}

/// Row 0 alone holds the general fallback values: no other row writes
/// `WAYPOINT` for Garmin or `POI` for Suunto.
pub proof fn lemma_fallback_only_in_first_row(i: int)
    requires
        1 <= i < dictionary_len(),
    ensures
        dictionary_entry(i).garmin != fallback_value(Vendor::Garmin),
        dictionary_entry(i).suunto != fallback_value(Vendor::Suunto),
{
    lemma_row_key(i);
    lemma_row_key(0);
    lemma_row_keys_distinct(0, i);
    lemma_row_prefixes_distinct();
}

#[verifier::spinoff_prover]
proof fn lemma_upper_case_from_1(i: int)
    requires
        1 <= i < 11,
    ensures
        dictionary_entry(i).garmin == ascii_uppercase(dictionary_entry(i).suunto),
{
    if i == 1 {
        reveal_strlit("Alert");
        reveal_strlit("ALERT");
    } else if i == 2 {
        reveal_strlit("Anchor");
        reveal_strlit("ANCHOR");
    } else if i == 3 {
        reveal_strlit("Bank");
        reveal_strlit("BANK");
    } else if i == 4 {
        reveal_strlit("Beach");
        reveal_strlit("BEACH");
    } else if i == 5 {
        reveal_strlit("Bike Trail");
        reveal_strlit("BIKE TRAIL");
    } else if i == 6 {
        reveal_strlit("Binoculars");
        reveal_strlit("BINOCULARS");
    } else if i == 7 {
        reveal_strlit("Bridge");
        reveal_strlit("BRIDGE");
    } else if i == 8 {
        reveal_strlit("Building");
        reveal_strlit("BUILDING");
    } else if i == 9 {
        reveal_strlit("Campground");
        reveal_strlit("CAMPGROUND");
    } else if i == 10 {
        reveal_strlit("Car");
        reveal_strlit("CAR");
    }
}

#[verifier::spinoff_prover]
proof fn lemma_upper_case_from_11(i: int)
    requires
        11 <= i < 21,
    ensures
        dictionary_entry(i).garmin == ascii_uppercase(dictionary_entry(i).suunto),
{
    if i == 11 {
        reveal_strlit("Car Repair");
        reveal_strlit("CAR REPAIR");
    } else if i == 12 {
        reveal_strlit("Convenience Store");
        reveal_strlit("CONVENIENCE STORE");
    } else if i == 13 {
        reveal_strlit("Crossing");
        reveal_strlit("CROSSING");
    } else if i == 14 {
        reveal_strlit("Department Store");
        reveal_strlit("DEPARTMENT STORE");
    } else if i == 15 {
        reveal_strlit("Drinking Water");
        reveal_strlit("DRINKING WATER");
    } else if i == 16 {
        reveal_strlit("Exit");
        reveal_strlit("EXIT");
    } else if i == 17 {
        reveal_strlit("Lodge");
        reveal_strlit("LODGE");
    } else if i == 18 {
        reveal_strlit("Lodging");
        reveal_strlit("LODGING");
    } else if i == 19 {
        reveal_strlit("Forest");
        reveal_strlit("FOREST");
    } else if i == 20 {
        reveal_strlit("Gas Station");
        reveal_strlit("GAS STATION");
    }
}

#[verifier::spinoff_prover]
proof fn lemma_upper_case_from_21(i: int)
    requires
        21 <= i < 31,
    ensures
        dictionary_entry(i).garmin == ascii_uppercase(dictionary_entry(i).suunto),
{
    if i == 21 {
        reveal_strlit("Ground Transportation");
        reveal_strlit("GROUND TRANSPORTATION");
    } else if i == 22 {
        reveal_strlit("Hotel");
        reveal_strlit("HOTEL");
    } else if i == 23 {
        reveal_strlit("House");
        reveal_strlit("HOUSE");
    } else if i == 24 {
        reveal_strlit("Information");
        reveal_strlit("INFORMATION");
    } else if i == 25 {
        reveal_strlit("Park");
        reveal_strlit("PARK");
    } else if i == 26 {
        reveal_strlit("Parking Area");
        reveal_strlit("PARKING AREA");
    } else if i == 27 {
        reveal_strlit("Pharmacy");
        reveal_strlit("PHARMACY");
    } else if i == 28 {
        reveal_strlit("Picnic Area");
        reveal_strlit("PICNIC AREA");
    } else if i == 29 {
        reveal_strlit("Restaurant");
        reveal_strlit("RESTAURANT");
    } else if i == 30 {
        reveal_strlit("Restricted Area");
        reveal_strlit("RESTRICTED AREA");
    }
}

#[verifier::spinoff_prover]
proof fn lemma_upper_case_from_31(i: int)
    requires
        31 <= i < 41,
    ensures
        dictionary_entry(i).garmin == ascii_uppercase(dictionary_entry(i).suunto),
{
    if i == 31 {
        reveal_strlit("Restroom");
        reveal_strlit("RESTROOM");
    } else if i == 32 {
        reveal_strlit("Road");
        reveal_strlit("ROAD");
    } else if i == 33 {
        reveal_strlit("Scenic Area");
        reveal_strlit("SCENIC AREA");
    } else if i == 34 {
        reveal_strlit("Shelter");
        reveal_strlit("SHELTER");
    } else if i == 35 {
        reveal_strlit("Shopping Center");
        reveal_strlit("SHOPPING CENTER");
    } else if i == 36 {
        reveal_strlit("Shower");
        reveal_strlit("SHOWER");
    } else if i == 37 {
        reveal_strlit("Summit");
        reveal_strlit("SUMMIT");
    } else if i == 38 {
        reveal_strlit("Telephone");
        reveal_strlit("TELEPHONE");
    } else if i == 39 {
        reveal_strlit("Tunnel");
        reveal_strlit("TUNNEL");
    } else if i == 40 {
        reveal_strlit("Water Source");
        reveal_strlit("WATER SOURCE");
    }
}

/// Every Garmin value but the general fallback is the upper-case form of
/// the same row's Suunto value.
pub proof fn lemma_garmin_is_upper_case_suunto(i: int)
    requires
        1 <= i < dictionary_len(),
    ensures
        dictionary_entry(i).garmin == ascii_uppercase(dictionary_entry(i).suunto),
{
    if i < 11 {
        lemma_upper_case_from_1(i);
    } else if i < 21 {
        lemma_upper_case_from_11(i);
    } else if i < 31 {
        lemma_upper_case_from_21(i);
    } else if i < 41 {
        lemma_upper_case_from_31(i);
    }
}

/// Whether `key` is the comparison key of one of the names of row 0, the
/// general fallback: its Suunto or Garmin value or one of its aliases.
pub open spec fn names_first_row(key: Seq<char>) -> bool {
    let e = dictionary_entry(0);
    ||| key == normalize_key(e.suunto)
    ||| key == normalize_key(e.garmin)
    ||| exists|j: int| 0 <= j < e.aliases.len() && key == normalize_key(#[trigger] e.aliases[j])
}

/// The row that the translation takes its value from: the first candidate
/// that the dictionary knows (see [`translation_of`]); `None` when it knows
/// neither.
pub open spec fn chosen_row(
    symbol: Option<Seq<char>>,
    poi_type: Option<Seq<char>>,
    target: Vendor,
) -> Option<nat> {
    let (first, second) = candidates(symbol, poi_type, target);
    if known_row(first) is Some {
        known_row(first)
    } else {
        known_row(second)
    }
}

proof fn lemma_first_match_matches(key: Seq<char>, level: int, from: nat)
    ensures
        first_match(key, level, from) matches Some(k) ==> entry_matches(
            dictionary_entry(k as int),
            key,
            level,
        ),
    decreases dictionary_len() - from,
{
    if from < dictionary_len() {
        lemma_first_match_matches(key, level, from + 1);
    }
}

#[verifier::spinoff_prover]
#[verifier::rlimit(60)]
proof fn lemma_alias_key_generic()
    ensures
        key_prefix(normalize_key("generic"@)) == (7nat, 'g', 'e', 'n'),
{
        reveal_with_fuel(squeeze, 8);
        reveal_strlit("generic");
}

#[verifier::spinoff_prover]
#[verifier::rlimit(60)]
proof fn lemma_alias_key_generic_point()
    ensures
        key_prefix(normalize_key("generic point"@)) == (13nat, 'g', 'e', 'n'),
{
        reveal_with_fuel(squeeze, 14);
        reveal_strlit("generic point");
}

#[verifier::spinoff_prover]
#[verifier::rlimit(60)]
proof fn lemma_alias_key_generic_point_of_interest()
    ensures
        key_prefix(normalize_key("generic point of interest"@)) == (25nat, 'g', 'e', 'n'),
{
        reveal_with_fuel(squeeze, 26);
        reveal_strlit("generic point of interest");
}

#[verifier::spinoff_prover]
#[verifier::rlimit(60)]
proof fn lemma_alias_key_basic()
    ensures
        key_prefix(normalize_key("basic"@)) == (5nat, 'b', 'a', 's'),
{
        reveal_with_fuel(squeeze, 6);
        reveal_strlit("basic");
}

#[verifier::spinoff_prover]
#[verifier::rlimit(60)]
proof fn lemma_alias_key_waypoint()
    ensures
        normalize_key("waypoint"@) == normalize_key("WAYPOINT"@),
{
        reveal_with_fuel(squeeze, 9);
        reveal_strlit("waypoint");
        reveal_strlit("WAYPOINT");
}

/// The keys of the aliases of row 0.
proof fn lemma_alias_keys()
    ensures
        key_prefix(normalize_key("generic"@)) == (7nat, 'g', 'e', 'n'),
        key_prefix(normalize_key("generic point"@)) == (13nat, 'g', 'e', 'n'),
        key_prefix(normalize_key("generic point of interest"@)) == (25nat, 'g', 'e', 'n'),
        key_prefix(normalize_key("basic"@)) == (5nat, 'b', 'a', 's'),
        normalize_key("waypoint"@) == normalize_key("WAYPOINT"@),
{
    lemma_alias_key_generic();
    lemma_alias_key_generic_point();
    lemma_alias_key_generic_point_of_interest();
    lemma_alias_key_basic();
    lemma_alias_key_waypoint();
}

/// A key selects row 0 exactly when it is the key of one of row 0's names.
pub proof fn lemma_first_row_names(key: Seq<char>)
    ensures
        lookup(key) == Some(0nat) <==> names_first_row(key),
{
    let e = dictionary_entry(0);
    lemma_first_match_matches(key, 0, 0);
    lemma_first_match_matches(key, 1, 0);
    lemma_first_match_matches(key, 2, 0);
    if names_first_row(key) {
        if key == normalize_key(e.suunto) {
            lemma_value_names_its_row(0, Vendor::Suunto);
        } else if key == normalize_key(e.garmin) {
            lemma_value_names_its_row(0, Vendor::Garmin);
        } else {
            let j = choose|j: int|
                0 <= j < e.aliases.len() && key == normalize_key(#[trigger] e.aliases[j]);
            lemma_alias_keys();
            if j == 0 {
                lemma_value_names_its_row(0, Vendor::Garmin);
            } else {
                lemma_row_prefixes_distinct();
                assert forall|r: int| 0 <= r < dictionary_len() implies !entry_matches(
                    #[trigger] dictionary_entry(r),
                    key,
                    0,
                ) && !entry_matches(dictionary_entry(r), key, 1) by {
                    lemma_row_key(r);
                }
                lemma_first_match_none(key, 0, 0);
                lemma_first_match_none(key, 1, 0);
                assert(entry_matches(e, key, 2));
                lemma_first_match_at(key, 2, 0, 0);
            }
        }
    }
}

/// The fallback value is written exactly when no candidate is known or the
/// chosen row is row 0, the general fallback.
pub proof fn lemma_fallback_exactly(
    symbol: Option<Seq<char>>,
    poi_type: Option<Seq<char>>,
    target: Vendor,
)
    ensures
        translation_of(symbol, poi_type, target).value == fallback_value(target) <==> (chosen_row(
            symbol,
            poi_type,
            target,
        ) is None || chosen_row(symbol, poi_type, target) == Some(0nat)),
{
    let (first, second) = candidates(symbol, poi_type, target);
    lemma_known_row_in_range(first);
    lemma_known_row_in_range(second);
    if let Some(k) = chosen_row(symbol, poi_type, target) {
        if k > 0 {
            lemma_fallback_only_in_first_row(k as int);
        }
    }
}

/// A single name, given as `<sym>`, gets the fallback value exactly when
/// the dictionary does not know it or it is one of the names of row 0.
pub proof fn lemma_single_name_fallback(name: Seq<char>, target: Vendor)
    ensures
        translation_of(Some(name), None, target).value == fallback_value(target) <==> (known_row(
            Some(name),
        ) is None || names_first_row(normalize_key(name))),
{
    lemma_fallback_exactly(Some(name), None, target);
    lemma_first_row_names(normalize_key(name));
}

/// For a name that the dictionary knows, other than those of row 0, the
/// Garmin value is the upper-case form of the Suunto value.
pub proof fn lemma_garmin_value_is_upper_case(name: Seq<char>)
    requires
        known_row(Some(name)) matches Some(k) && k > 0,
    ensures
        translation_of(Some(name), None, Vendor::Garmin).value == ascii_uppercase(
            translation_of(Some(name), None, Vendor::Suunto).value,
        ),
{
    lemma_known_row_in_range(Some(name));
    lemma_garmin_is_upper_case_suunto(known_row(Some(name))->0 as int);
}

} // verus!

verus! {

/// A key selects a row only if it is the comparison key of one of that
/// row's names (its Suunto value, its Garmin value or an alias); and the key
/// of any name of a row selects some row. A name that is the key of no row's
/// name is unknown.
pub proof fn lemma_lookup_exact(key: Seq<char>)
    ensures
        lookup(key) matches Some(k) ==> k < dictionary_len() && (key == normalize_key(
            dictionary_entry(k as int).suunto,
        ) || key == normalize_key(dictionary_entry(k as int).garmin) || exists|j: int|
            0 <= j < dictionary_entry(k as int).aliases.len() && key == normalize_key(
                #[trigger] dictionary_entry(k as int).aliases[j],
            )),
        (exists|k: int|
            0 <= k < dictionary_len() && (key == normalize_key(
                #[trigger] dictionary_entry(k).suunto,
            ) || key == normalize_key(dictionary_entry(k).garmin))) ==> lookup(key) is Some,
{
    lemma_first_match_matches(key, 0, 0);
    lemma_first_match_matches(key, 1, 0);
    lemma_first_match_matches(key, 2, 0);
    lemma_first_match_in_range(key, 0, 0);
    lemma_first_match_in_range(key, 1, 0);
    lemma_first_match_in_range(key, 2, 0);
    if exists|k: int|
        0 <= k < dictionary_len() && (key == normalize_key(#[trigger] dictionary_entry(k).suunto)
            || key == normalize_key(dictionary_entry(k).garmin)) {
        let k = choose|k: int|
            0 <= k < dictionary_len() && (key == normalize_key(#[trigger] dictionary_entry(k).suunto)
                || key == normalize_key(dictionary_entry(k).garmin));
        if key == normalize_key(dictionary_entry(k).suunto) {
            lemma_first_match_found(key, 0, 0, k as nat);
        } else {
            lemma_first_match_found(key, 1, 0, k as nat);
        }
    }
}

proof fn lemma_first_match_found(key: Seq<char>, level: int, from: nat, k: nat)
    requires
        from <= k < dictionary_len(),
        entry_matches(dictionary_entry(k as int), key, level),
    ensures
        first_match(key, level, from) is Some,
    decreases k - from,
{
    if from < k && !entry_matches(dictionary_entry(from as int), key, level) {
        lemma_first_match_found(key, level, from + 1, k);
    }
}

/// When neither source names a row, the fallback value is written, the
/// source recorded is the symbol or else the type, and the fallback counts
/// exactly when the waypoint had a symbol or a type; when one does, the
/// fallback does not count.
pub proof fn lemma_fallback_flag(
    symbol: Option<Seq<char>>,
    poi_type: Option<Seq<char>>,
    target: Vendor,
)
    ensures
        known_row(symbol) is None && known_row(poi_type) is None ==> {
            let t = translation_of(symbol, poi_type, target);
            &&& t.value == fallback_value(target)
            &&& (t.used_fallback <==> (symbol is Some || poi_type is Some))
            &&& t.source == (if symbol is Some {
                symbol
            } else {
                poi_type
            })
        },
        known_row(symbol) is Some || known_row(poi_type) is Some ==> {
            let t = translation_of(symbol, poi_type, target);
            &&& !t.used_fallback
            &&& t.source is Some
        },
{
}

} // verus!

verus! {

/// The field the target vendor writes is tried first: Garmin takes the
/// value from the row that `<sym>` names, Suunto from the row that `<type>`
/// names; the other field is used only when that one is absent or unknown.
pub proof fn lemma_target_field_first(
    symbol: Option<Seq<char>>,
    poi_type: Option<Seq<char>>,
    target: Vendor,
)
    ensures
        ({
            let own = if target == Vendor::Garmin {
                symbol
            } else {
                poi_type
            };
            let other = if target == Vendor::Garmin {
                poi_type
            } else {
                symbol
            };
            let t = translation_of(symbol, poi_type, target);
            &&& known_row(own) matches Some(k) ==> t.value == vendor_value(
                dictionary_entry(k as int),
                target,
            ) && t.source == own && !t.used_fallback
            &&& known_row(own) is None ==> (known_row(other) matches Some(k) ==> t.value
                == vendor_value(dictionary_entry(k as int), target) && t.source == other
                && !t.used_fallback)
        }),
{
}

} // verus!
