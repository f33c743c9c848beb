use avatar_anim::{AnimError, Animation, AnimationHeader, Document};
use llsd_rs::Llsd;
use std::collections::HashMap;

type Doc = Document<f64>;

fn table(entries: Vec<(&str, Doc)>) -> Doc {
    Document::Table(
        entries
            .into_iter()
            .map(|(k, v)| (k.to_string(), v))
            .collect(),
    )
}

fn reals(values: &[f64]) -> Doc {
    Document::Array(values.iter().map(|v| Document::Real(*v)).collect())
}

fn rot(roll: f64, pitch: f64, yaw: f64) -> [f64; 3] {
    [roll, pitch, yaw]
}

fn pos(x: f64, y: f64, z: f64) -> (f64, f64, f64) {
    (x, y, z)
}

fn import(doc: &Doc, check_enabled: bool) -> Result<Animation<[f64; 3], (f64, f64, f64)>, AnimError> {
    Animation::from_document(doc, check_enabled, 0.0, rot, pos)
}

#[test]
fn a_joint_that_is_switched_off_is_left_out_only_on_request() {
    let doc = table(vec![
        (
            "mHead",
            table(vec![
                ("enabled", Document::Boolean(false)),
                ("rotation", reals(&[0.1, 0.2, 0.3])),
            ]),
        ),
        (
            "mNeck",
            table(vec![
                ("enabled", Document::Boolean(true)),
                ("rotation", reals(&[1.0, 2.0, 3.0])),
            ]),
        ),
    ]);
    let only_on = import(&doc, true).unwrap();
    assert_eq!(only_on.joints.len(), 1);
    assert_eq!(only_on.joints[0].name, "mNeck");
    let all = import(&doc, false).unwrap();
    assert_eq!(all.joints.len(), 2);
    assert_eq!(all.joints[0].name, "mHead");
    assert_eq!(all.joints[0].rotation_keys[0].rot, [0.1, 0.2, 0.3]);
    assert_eq!(all.joints[1].name, "mNeck");
    assert_eq!(all.joints[1].rotation_keys[0].rot, [1.0, 2.0, 3.0]);
}

#[test]
fn a_joint_with_a_position_only_gets_one_position_key_at_the_end() {
    let doc = table(vec![("mPelvis", table(vec![("position", reals(&[0.0, 0.0, 0.05]))]))]);
    let a = import(&doc, false).unwrap();
    assert_eq!(a.joints.len(), 1);
    let joint = &a.joints[0];
    assert_eq!(joint.name, "mPelvis");
    assert_eq!(joint.priority, 0);
    assert!(joint.rotation_keys.is_empty());
    assert_eq!(joint.position_keys.len(), 1);
    assert_eq!(joint.position_keys[0].time, 65535);
    assert_eq!(joint.position_keys[0].pos, (0.0, 0.0, 0.05));
    assert_eq!(a.header, AnimationHeader::default());
    assert!(a.constraints.is_empty());
}

#[test]
fn a_document_that_is_no_table_is_refused() {
    for doc in [
        reals(&[1.0]),
        Document::Boolean(true),
        Document::Real(1.0),
        Document::Other,
    ] {
        match import(&doc, false) {
            Err(AnimError::InvalidStructure(why)) => assert_eq!(why, "LLSD must be a map"),
            other => panic!("unexpected {:?}", other),
        }
    }
}

#[test]
fn an_entry_that_is_no_table_is_passed_over() {
    let doc = table(vec![
        ("version", Document::Real(2.0)),
        ("mChest", table(vec![])),
        ("list", reals(&[1.0, 2.0, 3.0])),
        ("note", Document::Other),
        ("mTorso", table(vec![("rotation", reals(&[1.0, 2.0, 3.0]))])),
    ]);
    let a = import(&doc, false).unwrap();
    assert_eq!(a.joints.len(), 2);
    assert_eq!(a.joints[0].name, "mChest");
    assert!(a.joints[0].rotation_keys.is_empty());
    assert!(a.joints[0].position_keys.is_empty());
    assert_eq!(a.joints[1].name, "mTorso");
    assert_eq!(a.joints[1].rotation_keys.len(), 1);
    assert_eq!(a.joints[1].rotation_keys[0].time, 65535);
}

#[test]
fn missing_numbers_count_as_zero() {
    let doc = table(vec![(
        "mHead",
        table(vec![
            ("rotation", reals(&[0.5])),
            (
                "position",
                Document::Array(vec![
                    Document::Other,
                    Document::Real(2.0),
                    Document::Boolean(true),
                    Document::Real(9.0),
                ]),
            ),
        ]),
    )]);
    let a = import(&doc, false).unwrap();
    assert_eq!(a.joints[0].rotation_keys[0].rot, [0.5, 0.0, 0.0]);
    assert_eq!(a.joints[0].position_keys[0].pos, (0.0, 2.0, 0.0));
    let doc = table(vec![("mHead", table(vec![("rotation", reals(&[]))]))]);
    let a = import(&doc, false).unwrap();
    assert_eq!(a.joints[0].rotation_keys[0].rot, [0.0, 0.0, 0.0]);
}

#[test]
fn only_the_boolean_true_switches_a_joint_on() {
    let doc = table(vec![
        ("a", table(vec![])),
        ("b", table(vec![("enabled", Document::Real(1.0))])),
        ("c", table(vec![("enabled", Document::Other)])),
        ("d", table(vec![("enabled", Document::Boolean(true))])),
        (
            "e",
            table(vec![
                ("enabled", Document::Boolean(false)),
                ("enabled", Document::Boolean(true)),
            ]),
        ),
    ]);
    let a = import(&doc, true).unwrap();
    assert_eq!(a.joints.len(), 1);
    assert_eq!(a.joints[0].name, "d");
    assert_eq!(import(&doc, false).unwrap().joints.len(), 5);
}

#[test]
fn something_that_is_no_array_gives_no_key() {
    let doc = table(vec![(
        "mHead",
        table(vec![
            ("rotation", Document::Real(1.0)),
            ("position", table(vec![])),
        ]),
    )]);
    let a = import(&doc, false).unwrap();
    assert!(a.joints[0].rotation_keys.is_empty());
    assert!(a.joints[0].position_keys.is_empty());
}

#[test]
fn find_gives_the_first_entry_of_a_key() {
    let entries = vec![
        ("x".to_string(), Document::<f64>::Real(1.0)),
        ("y".to_string(), Document::Boolean(true)),
        ("x".to_string(), Document::Real(2.0)),
    ];
    assert!(matches!(
        avatar_anim::document::find(&entries, "x"),
        Some(Document::Real(v)) if *v == 1.0
    ));
    assert!(matches!(
        avatar_anim::document::find(&entries, "y"),
        Some(Document::Boolean(true))
    ));
    assert!(avatar_anim::document::find(&entries, "z").is_none());
}

type Pose = Animation<[f64; 3], (f64, f64, f64)>;

fn angles(roll: u64, pitch: u64, yaw: u64) -> [f64; 3] {
    [f64::from_bits(roll), f64::from_bits(pitch), f64::from_bits(yaw)]
}

fn offset(x: u64, y: u64, z: u64) -> (f64, f64, f64) {
    (f64::from_bits(x), f64::from_bits(y), f64::from_bits(z))
}

fn map(entries: Vec<(&str, Llsd)>) -> Llsd {
    let mut m = HashMap::new();
    for (k, v) in entries {
        m.insert(k.to_string(), v);
    }
    Llsd::Map(m)
}

fn numbers(values: &[f64]) -> Llsd {
    Llsd::Array(values.iter().map(|v| Llsd::Real(*v)).collect())
}

#[test]
fn a_parsed_joint_that_is_switched_off_is_left_out_only_on_request() {
    let llsd = map(vec![(
        "mHead",
        map(vec![
            ("enabled", Llsd::Boolean(false)),
            ("rotation", numbers(&[0.1, 0.2, 0.3])),
        ]),
    )]);
    let only_on: Pose = Animation::from_llsd(&llsd, true, angles, offset).unwrap();
    assert!(only_on.joints.is_empty());
    let all: Pose = Animation::from_llsd(&llsd, false, angles, offset).unwrap();
    assert_eq!(all.joints.len(), 1);
    assert_eq!(all.joints[0].name, "mHead");
    assert_eq!(all.joints[0].rotation_keys.len(), 1);
    assert_eq!(all.joints[0].rotation_keys[0].time, 65535);
    assert_eq!(all.joints[0].rotation_keys[0].rot, [0.1, 0.2, 0.3]);
    assert!(all.joints[0].position_keys.is_empty());
}

#[test]
fn a_parsed_joint_with_a_position_only_gets_one_position_key_at_the_end() {
    let llsd = map(vec![("mPelvis", map(vec![("position", numbers(&[0.0, 0.0, 0.05]))]))]);
    let a: Pose = Animation::from_llsd(&llsd, false, angles, offset).unwrap();
    assert_eq!(a.joints.len(), 1);
    assert!(a.joints[0].rotation_keys.is_empty());
    assert_eq!(a.joints[0].position_keys.len(), 1);
    assert_eq!(a.joints[0].position_keys[0].time, 65535);
    assert_eq!(a.joints[0].position_keys[0].pos, (0.0, 0.0, 0.05));
}

#[test]
fn every_kind_of_parsed_value_is_told_apart() {
    let llsd = map(vec![
        ("a", Llsd::Integer(3)),
        ("b", Llsd::String("text".to_string())),
        ("c", Llsd::Undefined),
        ("d", numbers(&[1.0])),
        (
            "e",
            map(vec![
                ("enabled", Llsd::Boolean(true)),
                (
                    "rotation",
                    Llsd::Array(vec![Llsd::Integer(7), Llsd::Real(-2.5), Llsd::Boolean(true)]),
                ),
                ("position", Llsd::String("1,2,3".to_string())),
            ]),
        ),
        ("f", map(vec![("enabled", Llsd::Integer(1))])),
    ]);
    let a: Pose = Animation::from_llsd(&llsd, true, angles, offset).unwrap();
    assert_eq!(a.joints.len(), 1);
    assert_eq!(a.joints[0].name, "e");
    assert_eq!(a.joints[0].rotation_keys[0].rot, [0.0, -2.5, 0.0]);
    assert!(a.joints[0].position_keys.is_empty());
    let mut names: Vec<String> = Animation::<[f64; 3], (f64, f64, f64)>::from_llsd(
        &llsd, false, angles, offset,
    )
    .unwrap()
    .joints
    .into_iter()
    .map(|j| j.name)
    .collect();
    names.sort();
    assert_eq!(names, vec!["e".to_string(), "f".to_string()]);
}

#[test]
fn a_parsed_value_that_is_no_map_is_refused() {
    for llsd in [numbers(&[1.0]), Llsd::Undefined, Llsd::Real(1.0), Llsd::Boolean(true)] {
        let r: Result<Pose, AnimError> = Animation::from_llsd(&llsd, false, angles, offset);
        match r {
            Err(AnimError::InvalidStructure(why)) => assert_eq!(why, "LLSD must be a map"),
            other => panic!("unexpected {:?}", other),
        }
    }
}

#[test]
fn a_pose_is_read_from_its_xml_text() {
    let xml = "<?xml version=\"1.0\" encoding=\"UTF-8\"?><llsd><map>\
        <key>mHead</key><map>\
          <key>enabled</key><boolean>1</boolean>\
          <key>rotation</key><array><real>0.25</real><real>-0.5</real><real>1</real></array>\
        </map>\
        <key>mNeck</key><map>\
          <key>enabled</key><boolean>0</boolean>\
          <key>position</key><array><real>1.5</real><real>2</real><real>3</real></array>\
        </map>\
        <key>version</key><integer>4</integer>\
        </map></llsd>";
    let on: Pose = Animation::from_llsd_xml(xml.as_bytes(), true, angles, offset).unwrap();
    assert_eq!(on.joints.len(), 1);
    assert_eq!(on.joints[0].name, "mHead");
    assert_eq!(on.joints[0].rotation_keys[0].rot, [0.25, -0.5, 1.0]);
    assert_eq!(on.header, AnimationHeader::default());
    let all: Pose = Animation::from_llsd_xml(xml.as_bytes(), false, angles, offset).unwrap();
    assert_eq!(all.joints.len(), 2);
    let neck = all.joint("mNeck").unwrap();
    assert!(neck.rotation_keys.is_empty());
    assert_eq!(neck.position_keys[0].pos, (1.5, 2.0, 3.0));
    assert_eq!(neck.position_keys[0].time, 65535);
}

#[test]
fn text_that_is_no_xml_fails_with_the_words_of_the_parser() {
    for text in ["", "not xml", "<llsd><map><key>a</key></llsd>", "<html></html>"] {
        let r: Result<Pose, AnimError> =
            Animation::from_llsd_xml(text.as_bytes(), false, angles, offset);
        match r {
            Err(AnimError::Llsd(why)) => {
                assert!(!why.is_empty());
                assert_eq!(
                    why,
                    llsd_rs::xml::from_slice(text.as_bytes()).unwrap_err().to_string()
                );
                assert_eq!(
                    AnimError::Llsd(why.clone()).message(),
                    format!("LLSD parse error: {}", why)
                );
            }
            other => panic!("unexpected {:?}", other),
        }
    }
    let r: Result<Pose, AnimError> =
        Animation::from_llsd_xml(b"<llsd><array></array></llsd>", false, angles, offset);
    assert!(matches!(r, Err(AnimError::InvalidStructure(_))));
}

#[test]
fn a_parsed_map_is_imported_whatever_it_holds_and_nothing_else_is() {
    let empty: Pose = Animation::from_llsd(&map(vec![]), true, angles, offset).unwrap();
    assert!(empty.joints.is_empty());
    assert_eq!(empty.header, AnimationHeader::default());
    let filled = map(vec![
        ("a", map(vec![("position", numbers(&[1.0, 2.0, 3.0]))])),
        ("b", map(vec![("rotation", numbers(&[4.0, 5.0, 6.0]))])),
        ("c", map(vec![])),
    ]);
    for _ in 0..20 {
        let a: Pose = Animation::from_llsd(&filled, false, angles, offset).unwrap();
        assert_eq!(a.joints.len(), 3);
        let mut names: Vec<&str> = a.joints.iter().map(|j| j.name.as_str()).collect();
        names.sort();
        assert_eq!(names, vec!["a", "b", "c"]);
        assert_eq!(a.joint("a").unwrap().position_keys[0].pos, (1.0, 2.0, 3.0));
        assert_eq!(a.joint("b").unwrap().rotation_keys[0].rot, [4.0, 5.0, 6.0]);
        assert!(a.joint("c").unwrap().rotation_keys.is_empty());
    }
    let r: Result<Pose, avatar_anim::Error> =
        Animation::from_llsd(&Llsd::String("map".to_string()), false, angles, offset);
    assert!(matches!(r, Err(avatar_anim::Error::InvalidStructure(_))));
}

#[test]
fn the_same_text_gives_the_same_failure_or_the_same_joints() {
    let bad = b"<llsd><real>one</real></llsd>";
    let first: Result<Pose, AnimError> = Animation::from_llsd_xml(bad, false, angles, offset);
    let second: Result<Pose, AnimError> = Animation::from_llsd_xml(bad, true, angles, offset);
    assert!(matches!(first, Err(AnimError::Llsd(_))));
    assert_eq!(first, second);
    let good = b"<llsd><map><key>k</key><map><key>position</key>\
        <array><real>1</real><real>nan</real><real>-inf</real></array></map></map></llsd>";
    let a: Pose = Animation::from_llsd_xml(good, false, angles, offset).unwrap();
    assert_eq!(a.joints.len(), 1);
    let pos = a.joints[0].position_keys[0].pos;
    assert_eq!(pos.0, 1.0);
    assert!(pos.1.is_nan());
    assert_eq!(pos.2, f64::NEG_INFINITY);
}
