use tak_core::{TakPtnAttr, TakTps};
#[test]
fn test_ptn_attr_to_str() {
    let attr = TakPtnAttr::Size(5);
    assert_eq!(attr.to_str(), "[Size \"5\"]");

    let attr = TakPtnAttr::Clock(300, 10);
    assert_eq!(attr.to_str(), "[Clock \"5:0 +10\"]");

    let attr = TakPtnAttr::Komi(6, false);
    assert_eq!(attr.to_str(), "[Komi \"6\"]");

    let attr = TakPtnAttr::Flats(21);
    assert_eq!(attr.to_str(), "[Flats \"21\"]");

    let attr = TakPtnAttr::Caps(4);
    assert_eq!(attr.to_str(), "[Caps \"4\"]");

    let attr = TakPtnAttr::TPS(TakTps::new("x3/x3/x3".to_string(), 0));
    assert_eq!(attr.to_str(), "[TPS \"x3/x3/x3 1 1\"]");

    let attr = TakPtnAttr::TPS(TakTps::new("x3/x2,112C/x3".to_string(), 9));
    assert_eq!(attr.to_str(), "[TPS \"x3/x2,112C/x3 2 5\"]");

    let attr = TakPtnAttr::Unknown("Unknown".to_string());
    assert_eq!(attr.to_str(), "[Unknown]");
}

#[test]
fn komi_values_read_as_whole_and_half() {
    assert_eq!(TakPtnAttr::from_str("[Komi \"2.5\"]"), Some(TakPtnAttr::Komi(2, true)));
    assert_eq!(TakPtnAttr::from_str("[Komi \"-2\"]"), Some(TakPtnAttr::Komi(0, false)));
    assert_eq!(TakPtnAttr::from_str("[Komi \"-0.5\"]"), Some(TakPtnAttr::Komi(0, true)));
    assert_eq!(
        TakPtnAttr::from_str("[Komi \"99999999999999999999999\"]"),
        Some(TakPtnAttr::Komi(usize::MAX, false))
    );
    assert_eq!(TakPtnAttr::from_str("[Komi \"x\"]"), None);
}
