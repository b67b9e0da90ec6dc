//! End-to-end scenarios for the scanner-report fusion pipeline.

use advent::geometry::{Point, dist, manhattan_distance, rotate, inverse_rotation};
use advent::index::{pair_dists, overlapped_pair_count};
use advent::matching::match_candidates;
use advent::align::fix;
use advent::fuse::{fuse, unique_beacon_count, max_scanner_distance, FusionError};
use advent::report::parse_report;

fn pt(x: i64, y: i64, z: i64) -> Point {
    Point { x, y, z }
}

fn r0() -> Vec<Point> {
    vec![pt(-854, 45, -173), pt(-778, 367, -479), pt(-767, -776, 597), pt(-757, -408, -715), pt(-724, -12, -44), pt(-659, 269, -269), pt(-556, 351, -661), pt(-530, -689, 291), pt(-448, -805, 240), pt(-443, 391, 384), pt(-237, -592, -92), pt(-204, 523, -183), pt(-160, -287, -392), pt(-152, 293, -782), pt(-138, -701, 221), pt(-110, 469, -190), pt(-42, -605, 207), pt(-25, 691, -257), pt(12, -318, 567), pt(53, 299, 28)]
}

fn r1() -> Vec<Point> {
    vec![pt(1648, -505, 210), pt(1643, 691, 66), pt(1437, -292, 542), pt(1404, 823, 633), pt(1360, 13, 842), pt(1352, 593, 1232), pt(1338, -401, 229), pt(1310, 769, 640), pt(1242, -305, 243), pt(1225, 991, 707), pt(1188, -18, -117), pt(1147, 599, 422), pt(1130, 827, -10), pt(1099, 263, 1270), pt(1089, -480, 904), pt(1087, 1192, 647), pt(1084, 793, 262), pt(1061, -161, 1274), pt(1052, 256, 1013), pt(972, 269, 1229)]
}

fn r2() -> Vec<Point> {
    vec![pt(-1555, 758, -1507), pt(-259, 775, -1043), pt(-1268, 812, -1867), pt(-651, 853, -1328), pt(-423, 870, -1760), pt(-987, 901, -480), pt(-1730, 911, -846), pt(-58, 913, -1103), pt(-457, 916, -1488), pt(-1411, 939, -476), pt(-994, 948, -737), pt(-981, 1028, -521), pt(-677, 1042, -2016), pt(-179, 1047, -1796), pt(-542, 1069, -784), pt(-1236, 1076, -1475), pt(-455, 1083, -2083), pt(-1724, 1093, -1581), pt(-1038, 1099, -501), pt(-833, 1117, -1587)]
}

fn r3() -> Vec<Point> {
    vec![pt(147, -263, -1984), pt(1101, 749, -1961), pt(684, 488, -1952), pt(671, 704, -1872), pt(367, -791, -1858), pt(-131, -571, -1853), pt(232, 441, -1831), pt(926, -250, -1824), pt(145, -858, -1817), pt(1414, -356, -1807), pt(728, 724, -1801), pt(523, -362, -1783), pt(1391, 584, -1753), pt(1442, 677, -1667), pt(1382, -740, -1632), pt(906, -500, -1564), pt(1412, -330, -1542), pt(621, 236, -1507), pt(840, 514, -1450), pt(952, 561, -1427)]
}

fn r4() -> Vec<Point> {
    vec![pt(37, -2245, -1783), pt(539, -976, -1793), pt(1619, -1662, -1799), pt(533, -1867, -1817), pt(1479, -999, -1847), pt(1572, -948, -1933), pt(155, -1008, -1968), pt(395, -1484, -2036), pt(565, -978, -2058), pt(1131, -1769, -2093), pt(1409, -1550, -2150), pt(1456, -1438, -2173), pt(1553, -1349, -2197), pt(289, -1218, -2226), pt(1580, -1784, -2232), pt(1528, -1947, -2281), pt(1467, -2008, -2293), pt(1168, -1041, -2320), pt(1127, -1122, -2358), pt(1078, -2525, -2392)]
}

fn rep_a() -> Vec<Point> {
    vec![pt(-854, 45, -173), pt(-778, 367, -479), pt(-767, -776, 597), pt(-757, -408, -715), pt(-724, -12, -44), pt(-659, 269, -269), pt(-556, 351, -661), pt(-530, -689, 291), pt(-448, -805, 240), pt(-443, 391, 384), pt(-237, -592, -92), pt(-204, 523, -183), pt(-160, -287, -392), pt(-152, 293, -782), pt(-138, -701, 221), pt(-110, 469, -190), pt(-42, -605, 207), pt(-25, 691, -257), pt(12, -318, 567), pt(53, 299, 28)]
}

fn rep_b() -> Vec<Point> {
    vec![pt(1348, 1005, 590), pt(1343, -191, 734), pt(1137, 792, 258), pt(1104, -323, 167), pt(1060, 487, -42), pt(1052, -93, -432), pt(1038, 901, 571), pt(1010, -269, 160), pt(942, 805, 557), pt(925, -491, 93), pt(888, 518, 917), pt(847, -99, 378), pt(830, -327, 810), pt(799, 237, -470), pt(789, 980, -104), pt(787, -692, 153), pt(784, -293, 538), pt(761, 661, -474), pt(752, 244, -213), pt(672, 231, -429)]
}

fn rep_c() -> Vec<Point> {
    vec![pt(709, -7, 393), pt(1692, -213, 869), pt(577, -246, 960), pt(1387, -290, 1169), pt(807, -298, 1559), pt(1801, -312, 556), pt(631, -340, 967), pt(1705, -408, 570), pt(409, -425, 1034), pt(1418, -462, 210), pt(801, -503, 749), pt(573, -520, 317)]
}

fn base4() -> Vec<Point> {
    vec![pt(-854, 45, -173), pt(-778, 367, -479), pt(-767, -776, 597), pt(-757, -408, -715), pt(-724, -12, -44), pt(-659, 269, -269), pt(-556, 351, -661), pt(-530, -689, 291), pt(-448, -805, 240), pt(-443, 391, 384), pt(-237, -592, -92), pt(-204, 523, -183)]
}

fn unf4() -> Vec<Point> {
    vec![pt(55, 834, -143), pt(377, 758, -449), pt(-766, 747, 627), pt(-398, 737, -685), pt(-2, 704, -14), pt(279, 639, -239), pt(361, 536, -631), pt(-679, 510, 321), pt(-795, 428, 270), pt(401, 423, 414), pt(-582, 217, -62), pt(533, 184, -153)]
}

#[test]
fn squared_distance_symmetric_and_zero() {
    let a = pt(3, -4, 12);
    let b = pt(-7, 2, 5);
    assert_eq!(dist(&a, &b), dist(&b, &a));
    assert_eq!(dist(&a, &a), 0);
    assert_eq!(dist(&a, &b), 10 * 10 + 6 * 6 + 7 * 7);
}

#[test]
fn manhattan_distance_exact() {
    let a = pt(1, -2, 3);
    let b = pt(-4, 6, -1);
    assert_eq!(manhattan_distance(&a, &b), 5 + 8 + 4);
    assert_eq!(manhattan_distance(&b, &a), 17);
}

#[test]
fn rotations_nondegenerate_on_generic_point() {
    let p = pt(1, 2, 3);
    let mut images = Vec::new();
    for r in 0..24u8 {
        let q = rotate(r, p);
        assert!(!images.contains(&q));
        images.push(q);
    }
    assert_eq!(images.len(), 24);
}

#[test]
fn rotation_round_trip_via_exhaustive_inverse() {
    let samples = [pt(1, 2, 3), pt(-7, 11, -13), pt(404, -588, -901), pt(0, 0, 0)];
    for r in 0..24u8 {
        let inv = inverse_rotation(r);
        assert!(inv < 24);
        for p in samples.iter() {
            assert_eq!(rotate(inv, rotate(r, *p)), *p);
        }
    }
}

#[test]
fn pair_index_groups_every_pair() {
    let rep = vec![pt(0, 0, 0), pt(1, 0, 0), pt(4, 0, 0)];
    let ix = pair_dists(&rep);
    // three pairs at distances 1, 16, 9
    let mut total = 0;
    let mut keys = Vec::new();
    for e in ix.entries.iter() {
        total += e.pairs.len();
        keys.push(e.key);
    }
    assert_eq!(total, 3);
    keys.sort();
    assert_eq!(keys, vec![1, 9, 16]);
}

#[test]
fn pair_index_handles_duplicate_points() {
    let rep = vec![pt(5, 5, 5), pt(5, 5, 5), pt(6, 5, 5)];
    let ix = pair_dists(&rep);
    let zero_bucket = ix.entries.iter().find(|e| e.key == 0).expect("distance-0 bucket");
    assert_eq!(zero_bucket.pairs, vec![(0, 1)]);
    let one_bucket = ix.entries.iter().find(|e| e.key == 1).expect("distance-1 bucket");
    assert_eq!(one_bucket.pairs.len(), 2);
}

#[test]
fn estimator_counts_min_bucket_sizes() {
    let a = vec![pt(0, 0, 0), pt(1, 0, 0), pt(3, 0, 0)];
    let b = vec![pt(10, 0, 0), pt(11, 0, 0), pt(13, 0, 0)];
    let ixa = pair_dists(&a);
    let ixb = pair_dists(&b);
    // both have distances {1, 4, 9}, one pair each
    assert_eq!(overlapped_pair_count(&ixa, &ixb), 3);
    let c = vec![pt(0, 0, 0), pt(2, 0, 0)];
    let ixc = pair_dists(&c);
    // only distance 4 is shared
    assert_eq!(overlapped_pair_count(&ixa, &ixc), 1);
    assert_eq!(overlapped_pair_count(&ixc, &ixa), 1);
}

#[test]
fn estimator_never_rejects_twelve_shared_points() {
    // base4 and unf4 are the same 12 physical points, one side rotated and
    // translated; their pairwise distances do not collide.
    let base = base4();
    let unf = unf4();
    let score = overlapped_pair_count(&pair_dists(&unf), &pair_dists(&base));
    assert!(score >= 66);
    assert_eq!(score, 66);
}

#[test]
fn aligner_recovers_rotation_and_translation() {
    // unf4 is base4 rotated by table rotation 9 and translated by (10, -20, 30).
    let base = base4();
    let unf = unf4();
    let cands = match_candidates(&pair_dists(&unf), &pair_dists(&base));
    let (prop, offset) = fix(&unf, &base, &cands).expect("alignment must succeed");
    // the recovered transform is the inverse rotation and its offset
    assert_eq!(offset, pt(-20, -10, -30));
    let mut sorted_prop = prop.clone();
    let mut sorted_base = base.clone();
    sorted_prop.sort_by_key(|p| (p.x, p.y, p.z));
    sorted_base.sort_by_key(|p| (p.x, p.y, p.z));
    assert_eq!(sorted_prop, sorted_base);
    let matches = prop.iter().filter(|p| base.contains(p)).count();
    assert!(matches >= 12);
}

#[test]
fn aligner_exhausted_below_threshold() {
    // rep_c shares exactly 11 points with rep_a: one below the threshold.
    let a = rep_a();
    let c = rep_c();
    let ixa = pair_dists(&a);
    let ixc = pair_dists(&c);
    // 11 shared points give C(11,2) = 55 shared pair distances: under 66.
    assert_eq!(overlapped_pair_count(&ixc, &ixa), 55);
    let cands = match_candidates(&ixc, &ixa);
    assert!(!cands.is_empty());
    assert!(fix(&c, &a, &cands).is_none());
}

#[test]
fn fusion_succeeds_over_alternate_path() {
    // C cannot be aligned against A (11 shared points), but B shares 12
    // points with each, so fusion still fixes all three through B.
    let reports = vec![rep_a(), rep_b(), rep_c()];
    let f = fuse(&reports).expect("fusion must succeed");
    assert_eq!(f.fixed.len(), 3);
    assert_eq!(unique_beacon_count(&f.fixed), 28);
    assert_eq!(max_scanner_distance(&f.scanners), 3377);
    assert_eq!(f.scanners[1], pt(900, 200, -350));
    assert_eq!(f.scanners[2], pt(-450, 1100, 777));
}

#[test]
fn fusion_single_report() {
    let reports = vec![vec![pt(1, 2, 3), pt(4, 5, 6), pt(-7, 0, 9)]];
    let f = fuse(&reports).expect("single report fuses trivially");
    assert_eq!(f.fixed.len(), 1);
    assert_eq!(f.fixed[0], reports[0]);
    assert_eq!(f.scanners[0], pt(0, 0, 0));
    assert_eq!(unique_beacon_count(&f.fixed), 3);
    assert_eq!(max_scanner_distance(&f.scanners), 0);
}

#[test]
fn fusion_single_report_with_duplicate_points() {
    // duplicate points are legal input; the beacon count collapses them
    let reports = vec![vec![pt(1, 2, 3), pt(4, 5, 6), pt(1, 2, 3)]];
    let f = fuse(&reports).expect("single report fuses trivially");
    assert_eq!(unique_beacon_count(&f.fixed), 2);
    assert_eq!(max_scanner_distance(&f.scanners), 0);
}

#[test]
fn fusion_stalls_on_disconnected_reports() {
    // two far-apart reports sharing nothing: no overlap edge, fatal stall
    let a = vec![pt(0, 0, 0), pt(1, 0, 0), pt(0, 2, 0)];
    let b = vec![pt(9000, 0, 0), pt(9000, 30, 0), pt(9000, 0, 70)];
    let reports = vec![a, b];
    match fuse(&reports) {
        Err(e) => assert_eq!(e, FusionError::Stalled),
        Ok(_) => panic!("expected the fusion to stall"),
    }
}

#[test]
fn five_chained_reports_fuse_end_to_end() {
    // five reports, each 20 points, each overlapping only its neighbour by
    // exactly 12 points; 52 distinct beacons in all
    let reports = vec![r0(), r1(), r2(), r3(), r4()];
    let f = fuse(&reports).expect("chain must fuse");
    assert_eq!(unique_beacon_count(&f.fixed), 52);
    assert_eq!(max_scanner_distance(&f.scanners), 6885);
    assert_eq!(f.scanners[0], pt(0, 0, 0));
    assert_eq!(f.scanners[1], pt(1200, -300, 450));
    assert_eq!(f.scanners[2], pt(-800, 950, -1300));
    assert_eq!(f.scanners[3], pt(2100, 640, -75));
    assert_eq!(f.scanners[4], pt(-1500, -1750, 820));
}

#[test]
fn parse_report_reads_blocks() {
    let lines: Vec<String> = vec![
        "--- scanner 0 ---".to_string(),
        "404,-588,-901".to_string(),
        "528,-643,409".to_string(),
        "".to_string(),
        "--- scanner 1 ---".to_string(),
        "686,422,578".to_string(),
    ];
    let (pts, next) = parse_report(&lines, 0).expect("first report");
    assert_eq!(pts, vec![pt(404, -588, -901), pt(528, -643, 409)]);
    assert_eq!(next, 4);
    let (pts2, next2) = parse_report(&lines, next).expect("second report");
    assert_eq!(pts2, vec![pt(686, 422, 578)]);
    assert_eq!(next2, 6);
    assert!(parse_report(&lines, 6).is_none());
}
