use simplify_polyline::{Point, Polyline};

// Coordinates are on a grid of hundredths: 8.9 is written 890.

#[test]
fn does_nothing_with_two() {
    let mut line = Polyline::new();
    line.add(Point::new(0, 0));
    line.add(Point::new(100, 890));
    let new = line.simplify(500, true);
    assert_eq!(new, Polyline::from_vec(vec![Point::new(0, 0), Point::new(100, 890)]));
}

#[test]
fn it_works() {
    let original = Polyline::from_vec(vec![
        Point::new(22455, 25015), Point::new(22691, 24419), Point::new(23331, 24145), Point::new(23498, 23606),
        Point::new(24421, 23276), Point::new(26259, 21531), Point::new(26776, 21381), Point::new(27357, 20184),
        Point::new(27312, 19216), Point::new(27762, 18903), Point::new(28036, 18141), Point::new(28651, 17774),
        Point::new(29241, 15937), Point::new(29691, 15564), Point::new(31495, 15137), Point::new(31975, 14516),
        Point::new(33033, 13757), Point::new(34148, 13996), Point::new(36998, 13789), Point::new(38739, 14251),
        Point::new(39128, 13939), Point::new(40952, 14114), Point::new(41482, 13975), Point::new(42772, 12730),
        Point::new(43960, 11974), Point::new(47493, 10787), Point::new(48651, 10675), Point::new(48920, 10945),
        Point::new(49379, 10863), Point::new(50474, 11966), Point::new(51296, 12235), Point::new(51863, 12089),
        Point::new(52409, 12688), Point::new(52957, 12786), Point::new(53421, 14093), Point::new(53927, 14724),
        Point::new(56769, 14891), Point::new(57525, 15726), Point::new(58062, 15815), Point::new(60153, 15685),
        Point::new(61774, 15986), Point::new(62200, 16704), Point::new(62955, 19460), Point::new(63890, 19561),
        Point::new(64126, 20081), Point::new(65177, 20456), Point::new(67155, 22255), Point::new(68368, 21745),
        Point::new(69525, 21915), Point::new(70064, 21798), Point::new(70312, 21436), Point::new(71226, 21587),
        Point::new(72149, 21281), Point::new(72781, 21336), Point::new(72998, 20873), Point::new(73532, 20820),
        Point::new(73994, 20477), Point::new(76998, 20842), Point::new(77960, 21687), Point::new(78420, 21816),
        Point::new(80024, 21462), Point::new(81053, 21973), Point::new(81719, 22682), Point::new(82077, 23617),
        Point::new(82723, 23616), Point::new(82989, 23989), Point::new(85100, 24894), Point::new(85988, 25549),
        Point::new(86521, 26853), Point::new(85795, 28030), Point::new(86548, 29145), Point::new(86681, 29866),
        Point::new(86468, 30271), Point::new(86779, 30617), Point::new(85987, 31137), Point::new(86008, 31435),
        Point::new(85829, 31494), Point::new(85810, 32760), Point::new(85454, 33540), Point::new(86092, 34300),
        Point::new(85643, 35015), Point::new(85142, 35296), Point::new(84984, 35959), Point::new(85456, 36553),
        Point::new(84974, 37038), Point::new(84409, 37189), Point::new(84475, 38044), Point::new(84152, 38367),
        Point::new(83957, 39040), Point::new(84559, 39905), Point::new(84840, 40755), Point::new(84371, 41130),
        Point::new(84409, 41988), Point::new(83951, 43276), Point::new(84133, 44104), Point::new(84762, 44922),
        Point::new(84716, 45844), Point::new(85138, 46279), Point::new(85397, 47115), Point::new(86636, 48077),
    ]);

    let expected = Polyline::from_vec(vec![
        Point::new(22455, 25015), Point::new(26776, 21381), Point::new(29691, 15564), Point::new(33033, 13757),
        Point::new(40952, 14114), Point::new(43960, 11974), Point::new(48651, 10675), Point::new(52957, 12786),
        Point::new(53927, 14724), Point::new(61774, 15986), Point::new(62955, 19460), Point::new(67155, 22255),
        Point::new(72781, 21336), Point::new(73994, 20477), Point::new(76998, 20842), Point::new(77960, 21687),
        Point::new(80024, 21462), Point::new(82077, 23617), Point::new(85988, 25549), Point::new(86521, 26853),
        Point::new(85795, 28030), Point::new(86779, 30617), Point::new(85987, 31137), Point::new(85454, 33540),
        Point::new(86092, 34300), Point::new(84984, 35959), Point::new(85456, 36553), Point::new(84409, 37189),
        Point::new(83957, 39040), Point::new(84840, 40755), Point::new(83951, 43276), Point::new(85397, 47115),
        Point::new(86636, 48077),
    ]);

    let actual = original.simplify(500, false);

    assert_eq!(actual, expected);
}

#[test]
fn golden_path_high_quality_keeps_ends() {
    let original = Polyline::from_vec(vec![
        Point::new(22455, 25015), Point::new(22691, 24419), Point::new(23331, 24145),
        Point::new(85397, 47115), Point::new(86636, 48077),
    ]);
    let actual = original.simplify(500, true);
    assert_eq!(actual.points.first(), original.points.first());
    assert_eq!(actual.points.last(), original.points.last());
    assert!(actual.len() <= original.len());
}
