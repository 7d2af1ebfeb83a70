//! Real Las Vegas / Henderson locations for realistic test fixtures.
//!
//! These are real, routable locations in the metro area; tests use them
//! as a realistic coordinate pool.

use vrp_planner::manhattan::ManhattanMatrix;
use vrp_planner::traits::DistanceMatrixProvider;

/// A named location with coordinates.
#[derive(Debug, Clone)]
pub struct Location {
    pub name: &'static str,
    pub lat: f64,
    pub lng: f64,
}

fn loc(name: &'static str, lat: f64, lng: f64) -> Location {
    Location { name, lat, lng }
}

pub fn casinos() -> Vec<Location> {
    vec![
        loc("Wynn Las Vegas", 36.1263781, -115.1658180),
        loc("Encore at Wynn", 36.1289345, -115.1653620),
        loc("MGM Grand", 36.1023654, -115.1688720),
        loc("Bellagio", 36.1126, -115.1767),
        loc("Caesars Palace", 36.1162, -115.1745),
        loc("Longhorn Casino", 36.1070664, -115.0591256),
    ]
}

pub fn strip_restaurants() -> Vec<Location> {
    vec![
        loc("Hard Rock Cafe", 36.1041592, -115.1722166),
        loc("SW Steakhouse", 36.1262145, -115.1669146),
        loc("Sinatra", 36.1300035, -115.1654850),
        loc("Public House", 36.1219193, -115.1689317),
        loc("Outback Steakhouse Strip", 36.1037287, -115.1724577),
        loc("The Crack Shack", 36.1050709, -115.1735287),
        loc("Brooklyn Bowl", 36.1175388, -115.1695094),
        loc("Flour & Barley", 36.1173688, -115.1702674),
        loc("Yard House", 36.1177147, -115.1691992),
        loc("Gordon Ramsay BurGR", 36.1107195, -115.1720818),
        loc("P.F. Chang's", 36.1103352, -115.1723830),
        loc("Earl of Sandwich Planet Hollywood", 36.1093912, -115.1720087),
        loc("Lobster Me Planet Hollywood", 36.1094857, -115.1708325),
        loc("Gordon Ramsay Steak", 36.1127744, -115.1712029),
        loc("Spago by Wolfgang Puck", 36.1139368, -115.1741462),
        loc("Le Cirque", 36.1135689, -115.1749763),
        loc("BLT Steakhouse", 36.1135528, -115.1690095),
        loc("Guy Fieri's Vegas Kitchen", 36.1184064, -115.1722088),
        loc("Hash House A Go Go", 36.1181377, -115.1710989),
        loc("Ruth's Chris Steak House", 36.1193113, -115.1722630),
        loc("Otto Pizzeria", 36.1231219, -115.1684514),
        loc("Canaletto Ristorante", 36.1230743, -115.1688618),
        loc("Buddy V's", 36.1231133, -115.1697093),
        loc("Carnevino Italian Steakhouse", 36.1249521, -115.1687357),
        loc("Grand Lux Cafe", 36.1216416, -115.1685024),
        loc("Delmonico Steakhouse", 36.1231561, -115.1686955),
        loc("CUT", 36.1233879, -115.1682073),
        loc("Rao's", 36.1163982, -115.1763053),
        loc("Beijing Noodle No. 9", 36.1158277, -115.1758038),
        loc("Bacchanal Buffet", 36.1159581, -115.1762929),
        loc("Mr Chow", 36.1161158, -115.1761223),
        loc("Best Friend", 36.1049396, -115.1739173),
        loc("Il Fornaio", 36.1024474, -115.1740110),
        loc("America", 36.1021028, -115.1750921),
        loc("Emeril's New Orleans Fish House", 36.1028578, -115.1688386),
        loc("Wolfgang Puck Bar & Grill", 36.1022046, -115.1696020),
        loc("L'Atelier De Joel Robuchon", 36.1026401, -115.1695890),
        loc("Charlie Palmer Steak", 36.0910624, -115.1743364),
        loc("Strip Steak", 36.0908722, -115.1776176),
    ]
}

pub fn henderson_locations() -> Vec<Location> {
    vec![
        loc("I Love Sushi Henderson", 35.9916660, -115.1028343),
        loc("Extended Stay America Henderson", 36.1283949, -115.0826989),
        loc("Islander's Grill", 36.0335058, -114.9856162),
        loc("Naga", 36.0137634, -114.9928676),
        loc("RibCage", 35.9949754, -115.0999810),
        loc("Buffalo Wild Wings Henderson", 36.0090449, -114.9917034),
        loc("Green Valley Ranch Area", 36.0308, -115.0825),
        loc("Sunset Station Area", 36.0614, -115.0631),
    ]
}

pub fn north_vegas_locations() -> Vec<Location> {
    vec![
        loc("Rivas Mexican Grill North", 36.1450055, -115.0482587),
        loc("Roberto's Taco Shop", 36.1452953, -115.0478347),
        loc("Monarca Mexican Restaurant", 36.1440711, -115.0634197),
        loc("Pizza Hut North", 36.1443292, -115.0624966),
        loc("La Costa del Sol", 36.1470458, -115.0644345),
        loc("Beers and Bets", 36.1428945, -115.1573836),
    ]
}

pub fn south_strip_locations() -> Vec<Location> {
    vec![
        loc("Buffalo Wild Wings South", 36.0543044, -115.1714860),
        loc("Dickey's Barbecue Pit", 36.0544257, -115.1715391),
        loc("Bootlegger Bistro", 36.0492047, -115.1715744),
        loc("Denny's South", 36.0591086, -115.1717250),
        loc("Tahiti Joe's Restaurant", 36.0592855, -115.1716402),
        loc("Matryoshka", 36.0492150, -115.1710486),
        loc("kabuki Japanese", 36.0675472, -115.1779391),
        loc("Mikos Izakaya", 36.0429503, -115.1527627),
        loc("Budget Suites South", 36.0366259, -115.1713361),
        loc("TENDER Steak & Seafood", 36.0949700, -115.1761289),
        loc("Pyramid Cafe", 36.0956586, -115.1761902),
        loc("Diablo's Cantina", 36.0955372, -115.1751818),
        loc("Burger Bar", 36.0943773, -115.1760142),
    ]
}

pub fn mid_strip_locations() -> Vec<Location> {
    vec![
        loc("Marakesh", 36.1177772, -115.1546882),
        loc("Musashi", 36.1177743, -115.1545417),
        loc("Satay", 36.1182162, -115.1542982),
        loc("Coco's Bakery", 36.1004202, -115.1652380),
        loc("Gallagher's", 36.1025514, -115.1742518),
        loc("Denny's Mid Strip", 36.1209774, -115.1717620),
        loc("Tilted Kilt", 36.1174596, -115.1705837),
        loc("Slice of Vegas Pizza", 36.0944330, -115.1759954),
        loc("La La Noodle", 36.1041828, -115.1740723),
        loc("PBR Grill", 36.1090017, -115.1724402),
        loc("Outback Steakhouse Mid", 36.1207197, -115.1718418),
        loc("mon ami Gabi", 36.1128554, -115.1724137),
        loc("Gold mine Bar & Grill", 36.1181288, -115.1629389),
        loc("Bonanno's NY Pizzeria", 36.1165192, -115.1719357),
        loc("La Subs & Salads", 36.1162678, -115.1719679),
        loc("Center Cut Steakhouse", 36.1162981, -115.1717185),
        loc("Paradise Garden Buffet", 36.1170543, -115.1710748),
        loc("Oyster Bar", 36.1194951, -115.1715059),
        loc("Fulton Street Food Hall", 36.1193256, -115.1710575),
        loc("Toby Keith's Bar & Grill", 36.1190579, -115.1703190),
        loc("Social Life Pizza", 36.1210052, -115.1684273),
        loc("Lobster Me Venetian", 36.1217851, -115.1687545),
        loc("Le Macaron", 36.1217180, -115.1689230),
        loc("Morels French Steakhouse", 36.1249500, -115.1690442),
        loc("Grimaldi's Pizzeria", 36.1248850, -115.1683540),
        loc("Zeffirino", 36.1219228, -115.1695013),
        loc("Trattoria Reggiano", 36.1218938, -115.1684071),
        loc("Canonita", 36.1218701, -115.1687311),
        loc("Earl of Sandwich Miracle Mile", 36.1178304, -115.1756160),
        loc("Payard Patisserie", 36.1166582, -115.1759111),
    ]
}

pub fn east_side_locations() -> Vec<Location> {
    vec![
        loc("Pei Wei Town Square", 36.0810469, -115.1472694),
        loc("Jose Cuervo Tequileria", 36.0806515, -115.1465380),
        loc("Sammy's", 36.0826447, -115.1483055),
        loc("Villa", 36.0825032, -115.1481717),
        loc("Pei Wei East", 36.0861327, -115.1387345),
        loc("The Local", 36.0861274, -115.1388524),
        loc("Hello Tokyo", 36.1161627, -115.0902096),
        loc("Golden China", 36.1171166, -115.0904647),
        loc("Original Lindo Michoacan", 36.1294005, -115.1135106),
        loc("Rivas Mexican Grill East", 36.1295175, -115.1087980),
        loc("Pizza Hut East", 36.1305215, -115.1093500),
        loc("Tomo Sushi", 36.0992464, -115.1142123),
        loc("Pizza Hut Boulder", 36.1287535, -115.0931625),
        loc("Wo Fat Chinese", 36.1298523, -115.0936239),
        loc("Sushi Twister", 36.1007300, -115.0526259),
        loc("Thai Food To Go", 36.1302738, -115.1037355),
        loc("Chuck Wagon Restaurant", 36.1072491, -115.0593482),
        loc("Denny's Boulder", 36.1061288, -115.0578247),
        loc("Viva El Salvador", 36.1013492, -115.0646473),
        loc("Roma Pizza", 36.1012461, -115.0753039),
    ]
}

/// Returns all locations as a single list.
pub fn all_locations() -> Vec<Location> {
    let mut all = Vec::with_capacity(150);
    all.extend(casinos());
    all.extend(strip_restaurants());
    all.extend(henderson_locations());
    all.extend(north_vegas_locations());
    all.extend(south_strip_locations());
    all.extend(mid_strip_locations());
    all.extend(east_side_locations());
    all
}

#[test]
fn test_all_locations_count() {
    let all = all_locations();
    assert!(
        all.len() >= 100,
        "should have at least 100 locations, got {}",
        all.len()
    );
}

#[test]
fn test_coordinates_in_vegas_area() {
    for loc in all_locations() {
        assert!(
            loc.lat > 35.9 && loc.lat < 36.3,
            "{} lat out of range: {}",
            loc.name,
            loc.lat
        );
        assert!(
            loc.lng > -115.4 && loc.lng < -114.8,
            "{} lng out of range: {}",
            loc.name,
            loc.lng
        );
    }
}

#[test]
fn test_vegas_matrix_is_plausible() {
    // The canonical-key matrix over the real coordinate pool: square,
    // zero on the diagonal, non-negative everywhere.
    let keys: Vec<(i64, i64)> = all_locations()
        .iter()
        .map(|l| {
            (
                (l.lat * 1_000_000.0).round() as i64,
                (l.lng * 1_000_000.0).round() as i64,
            )
        })
        .collect();
    let matrix = ManhattanMatrix.matrix_for(&keys);
    assert_eq!(matrix.len(), keys.len());
    for (i, row) in matrix.iter().enumerate() {
        assert_eq!(row.len(), keys.len());
        assert_eq!(row[i], 0, "diagonal must be zero");
    }
}
