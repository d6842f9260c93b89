use yamaha_rcp_rs::Error;
use yamaha_rcp_rs::LabelColor;
use yamaha_rcp_rs::SceneList;

#[test]
fn every_color_has_its_canonical_wire_name() {
    let cases = [
        (LabelColor::Purple, &b"Purple"[..]),
        (LabelColor::Pink, b"Pink"),
        (LabelColor::Red, b"Red"),
        (LabelColor::Orange, b"Orange"),
        (LabelColor::Yellow, b"Yellow"),
        (LabelColor::Blue, b"Blue"),
        (LabelColor::SkyBlue, b"SkyBlue"),
        (LabelColor::Green, b"Green"),
    ];
    for (color, name) in cases {
        assert_eq!(color.wire_name(), name.to_vec());
    }
}

#[test]
fn color_parsing_ignores_ascii_case() {
    for (s, c) in [
        (&b"purple"[..], LabelColor::Purple),
        (b"PURPLE", LabelColor::Purple),
        (b"Pink", LabelColor::Pink),
        (b"red", LabelColor::Red),
        (b"ORANGE", LabelColor::Orange),
        (b"yellow", LabelColor::Yellow),
        (b"bLuE", LabelColor::Blue),
        (b"SkyBlue", LabelColor::SkyBlue),
        (b"skyblue", LabelColor::SkyBlue),
        (b"green", LabelColor::Green),
    ] {
        assert_eq!(LabelColor::from_wire(&s.to_vec()).unwrap(), c);
    }
}

#[test]
fn every_parsed_color_writes_back_to_its_name() {
    for color in [
        LabelColor::Purple,
        LabelColor::Pink,
        LabelColor::Red,
        LabelColor::Orange,
        LabelColor::Yellow,
        LabelColor::Blue,
        LabelColor::SkyBlue,
        LabelColor::Green,
    ] {
        assert_eq!(LabelColor::from_wire(&color.wire_name()).unwrap(), color);
    }
}

#[test]
fn unknown_colors_are_rejected_never_defaulted() {
    for bad in [&b""[..], b"beige", b"blu", b"bluee", b"sky blue"] {
        assert!(
            matches!(
                LabelColor::from_wire(&bad.to_vec()),
                Err(Error::LabelColorParseError(_))
            ),
            "accepted {:?}",
            bad
        );
    }
}

#[test]
fn scene_lists_write_their_wire_names() {
    assert_eq!(SceneList::A.wire_name(), b"scene_a".to_vec());
    assert_eq!(SceneList::B.wire_name(), b"scene_b".to_vec());
}

#[test]
fn scene_descriptors_parse_case_insensitively() {
    assert_eq!(SceneList::from_wire(&b"a".to_vec()).unwrap(), SceneList::A);
    assert_eq!(SceneList::from_wire(&b"A".to_vec()).unwrap(), SceneList::A);
    assert_eq!(SceneList::from_wire(&b"b".to_vec()).unwrap(), SceneList::B);
    assert!(matches!(
        SceneList::from_wire(&b"c".to_vec()),
        Err(Error::SceneListParseError(_))
    ));
    assert!(matches!(
        SceneList::from_wire(&b"scene_a".to_vec()),
        Err(Error::SceneListParseError(_))
    ));
}
