//! End-to-end checks of the loader: fixed-point parsing, the atlas index,
//! the document model, scene assembly and animation compilation.

use dragon_skeleton::animation::{Animations, Easing, DEFAULT_DURATION_DIVISOR};
use dragon_skeleton::animation::{from_dragon_rotation, from_dragon_translation};
use dragon_skeleton::assemble::assemble;
use dragon_skeleton::atlas::{get_atlas, Atlas, SubTexture};
use dragon_skeleton::character::{
    Bone, BoneTrack, Character, Name, RotateKey, Slot, Transform, TranslateKey,
};
use dragon_skeleton::fixed::{fixed_from_text, int_from_text, FIXED_SCALE};
use dragon_skeleton::load_character;
use dragon_skeleton::scene::{NodeKind, NodeStore, Placement, Rect};
use dragon_skeleton::LoadError;

const S: i64 = FIXED_SCALE;

fn atlas_text() -> &'static str {
    r#"{
        "width": 256, "height": 128, "imagePath": "robot_tex.png",
        "SubTexture": [
            {"name": "head", "x": 0, "y": 0, "width": 32, "height": 32},
            {"name": "arm", "x": 32, "y": 0, "width": 16, "height": 48}
        ]
    }"#
}

fn simple_atlas() -> Atlas {
    get_atlas(atlas_text()).expect("atlas should parse")
}

fn transform(x: i64, y: i64) -> Transform {
    Transform { x, y, sc_x: S, sc_y: S, sk_x: 0 }
}

fn slot(name: &str, texture: &str, parent: &str, t: Transform) -> Slot {
    Slot {
        name: name.to_owned(),
        texture_name: texture.to_owned(),
        parent: parent.to_owned(),
        transform: t,
    }
}

fn bone(name: &str, parent: Option<&str>) -> Bone {
    Bone { name: name.to_owned(), parent: parent.map(|p| p.to_owned()), transform: None }
}

// ----- fixed-point text -----

#[test]
fn fixed_parses_integers_and_decimals() {
    assert_eq!(fixed_from_text("10"), Some(10 * S));
    assert_eq!(fixed_from_text("10.5"), Some(10 * S + 5000));
    assert_eq!(fixed_from_text("-0.25"), Some(-2500));
    assert_eq!(fixed_from_text("0"), Some(0));
    assert_eq!(fixed_from_text("-0.0"), Some(0));
    assert_eq!(fixed_from_text("118.25"), Some(118 * S + 2500));
}

#[test]
fn fixed_truncates_extra_digits_toward_zero() {
    assert_eq!(fixed_from_text("0.00009"), Some(0));
    assert_eq!(fixed_from_text("1.23456789"), Some(S + 2345));
    assert_eq!(fixed_from_text("-1.99999"), Some(-(S + 9999)));
}

#[test]
fn fixed_parses_exponent_notation() {
    assert_eq!(fixed_from_text("1e5"), Some(100_000 * S));
    assert_eq!(fixed_from_text("2.5e3"), Some(2500 * S));
    assert_eq!(fixed_from_text("1E-2"), Some(100));
    assert_eq!(fixed_from_text("-1.5e1"), Some(-15 * S));
    assert_eq!(fixed_from_text("1e+2"), Some(100 * S));
    // Tiny magnitudes truncate toward zero; huge ones leave the range.
    assert_eq!(fixed_from_text("1e-5"), Some(0));
    assert_eq!(fixed_from_text("1e-100000000000000000000000"), Some(0));
    assert_eq!(fixed_from_text("0e999999999999999999999999"), Some(0));
    assert_eq!(fixed_from_text("1e16"), None);
    assert_eq!(fixed_from_text("1e100000000000000000000000"), None);
}

#[test]
fn fixed_rejects_bad_grammar_and_range() {
    assert_eq!(fixed_from_text(""), None);
    assert_eq!(fixed_from_text("-"), None);
    assert_eq!(fixed_from_text("1."), None);
    assert_eq!(fixed_from_text(".5"), None);
    assert_eq!(fixed_from_text("1e"), None);
    assert_eq!(fixed_from_text("1e+"), None);
    assert_eq!(fixed_from_text("1x5"), None);
    assert_eq!(fixed_from_text("abc"), None);
    assert_eq!(fixed_from_text("10 "), None);
    assert_eq!(fixed_from_text("123456789012345678"), None);
}

#[test]
fn int_text_round_trip() {
    assert_eq!(int_from_text("42"), Some(42));
    assert_eq!(int_from_text("-7"), Some(-7));
    assert_eq!(int_from_text("3.5"), None);
    assert_eq!(int_from_text(""), None);
}

// ----- atlas index -----

#[test]
fn atlas_parses_manifest() {
    let a = simple_atlas();
    assert_eq!(a.width, 256);
    assert_eq!(a.height, 128);
    assert_eq!(a.image_path, "robot_tex.png");
    assert_eq!(a.sub_texture.len(), 2);
    assert_eq!(a.sub_texture[1].name, "arm");
    assert_eq!(a.sub_texture[1].height, 48);
}

#[test]
fn atlas_lookup_round_trip() {
    let a = simple_atlas();
    let st = a.get_sub_texture("head").expect("head is present");
    assert_eq!(
        st,
        &SubTexture { name: "head".to_owned(), x: 0, y: 0, width: 32, height: 32 }
    );
    assert!(a.get_sub_texture("tail").is_none());
}

#[test]
fn atlas_lookup_unknown_region_fails() {
    let a = simple_atlas();
    match a.lookup("tail") {
        Err(LoadError::UnknownRegion(name)) => assert_eq!(name, "tail"),
        other => panic!("expected UnknownRegion, got {:?}", other),
    }
    assert!(a.lookup("head").is_ok());
}

#[test]
fn atlas_rejects_malformed_manifest() {
    assert!(matches!(get_atlas("not json"), Err(LoadError::ParseError(_))));
    assert!(matches!(
        get_atlas(r#"{"width": 1, "height": 1}"#),
        Err(LoadError::ParseError(_))
    ));
    assert!(matches!(
        get_atlas(r#"{"width": 1.5, "height": 1, "imagePath": "x", "SubTexture": []}"#),
        Err(LoadError::ParseError(_))
    ));
}

// ----- skeleton document -----

fn skeleton_text() -> &'static str {
    r#"{
        "armature": [{
            "skin": [{"slot": [
                {"name": "headSlot", "parent": "neck",
                 "display": [{"name": "head", "transform": {"x": 10, "y": 20}}]}
            ]}],
            "bone": [
                {"name": "root"},
                {"name": "neck", "parent": "root", "transform": {"x": 1.5, "skX": 90}}
            ],
            "animation": [{"bone": [
                {"name": "neck",
                 "translateFrame": [
                     {"duration": 10, "x": 0, "y": 0},
                     {"duration": 10, "x": 5, "y": 0},
                     {"duration": 20, "x": 5, "y": 5}
                 ],
                 "rotateFrame": [
                     {"duration": 8, "rotate": 0},
                     {"duration": 4, "rotate": 45}
                 ]}
            ]}]
        }]
    }"#
}

#[test]
fn character_parses_with_defaults() {
    let c = dragon_skeleton::character::get_character(skeleton_text()).expect("should parse");
    assert_eq!(c.slots.len(), 1);
    assert_eq!(c.slots[0].name, "headSlot");
    assert_eq!(c.slots[0].texture_name, "head");
    assert_eq!(c.slots[0].parent, "neck");
    // Missing transform fields take their defaults: unit scale, no skew.
    assert_eq!(c.slots[0].transform, transform(10 * S, 20 * S));
    assert_eq!(c.bones.len(), 2);
    assert_eq!(c.bones[0].parent, None);
    let t = c.bones[1].transform.expect("neck has a transform");
    assert_eq!(t.x, S + 5000);
    assert_eq!(t.sk_x, 90 * S);
    assert_eq!(t.sc_x, S);
    assert_eq!(c.animation.len(), 1);
    let track = &c.animation[0];
    assert_eq!(track.name, "neck");
    assert_eq!(track.translate.as_ref().unwrap().len(), 3);
    assert_eq!(track.rotate.as_ref().unwrap().len(), 2);
    assert_eq!(track.translate.as_ref().unwrap()[1].x, 5 * S);
}

#[test]
fn tiny_decimals_load_instead_of_failing() {
    // A magnitude like 0.00001 re-renders in exponent form on its way out
    // of the JSON number; the loader still accepts it and truncates toward
    // zero rather than rejecting the document.
    let text = r#"{"armature": [{
        "skin": [{"slot": [
            {"name": "s", "parent": "root",
             "display": [{"name": "head", "transform": {"x": 0.00001, "y": 2.5e3}}]}
        ]}],
        "bone": [{"name": "root"}]
    }]}"#;
    let c = dragon_skeleton::character::get_character(text).expect("should parse");
    assert_eq!(c.slots[0].transform.x, 0);
    assert_eq!(c.slots[0].transform.y, 2500 * S);
}

#[test]
fn character_without_animation_has_empty_tracks() {
    let text = r#"{"armature": [{
        "skin": [{"slot": []}],
        "bone": [{"name": "root"}]
    }]}"#;
    let c = dragon_skeleton::character::get_character(text).expect("should parse");
    assert!(c.animation.is_empty());
}

#[test]
fn character_missing_required_fields_is_parse_error() {
    // No armature at all.
    assert!(matches!(
        dragon_skeleton::character::get_character("{}"),
        Err(LoadError::ParseError(_))
    ));
    // A keyframe without a duration.
    let text = r#"{"armature": [{
        "skin": [{"slot": []}],
        "bone": [{"name": "root"}],
        "animation": [{"bone": [{"name": "root", "rotateFrame": [{"rotate": 1}]}]}]
    }]}"#;
    assert!(matches!(
        dragon_skeleton::character::get_character(text),
        Err(LoadError::ParseError(_))
    ));
}

// ----- assembly -----

#[test]
fn assembles_single_slot_under_root() {
    // One region, one slot under the root, one root bone: the store gets the
    // synthesized root and one slot node at (10, 20) with rectangle
    // (0, 0, 32, 32).
    let atlas = simple_atlas();
    let doc = Character {
        slots: vec![slot("headSlot", "head", "root", transform(10 * S, 20 * S))],
        bones: vec![bone("root", None)],
        animation: vec![],
    };
    let a = assemble(&doc, &atlas).expect("assembles");
    assert_eq!(a.root_id, 0);
    assert_eq!(a.store.nodes.len(), 2);
    let root = &a.store.nodes[0];
    assert_eq!(root.node.id, 0);
    assert_eq!(root.parent, None);
    assert_eq!(root.node.kind, NodeKind::Bone);
    let child = &a.store.nodes[1];
    assert_eq!(child.parent, Some(0));
    assert_eq!(child.node.transform, transform(10 * S, 20 * S));
    assert_eq!(
        child.node.kind,
        NodeKind::Slot(Rect { x: 0, y: 0, width: 32, height: 32 })
    );
    let id = a
        .index
        .id_of(&Name::SlotName("headSlot".to_owned()))
        .expect("slot is indexed");
    assert_eq!(id, child.node.id);
}

#[test]
fn assembles_parent_declared_after_child() {
    // Bone "hand" names parent "arm", which is declared later: the staged
    // lookup still resolves it.
    let atlas = simple_atlas();
    let doc = Character {
        slots: vec![],
        bones: vec![
            bone("hand", Some("arm")),
            bone("arm", Some("root")),
            bone("root", None),
        ],
        animation: vec![],
    };
    let a = assemble(&doc, &atlas).expect("assembles in any declaration order");
    assert_eq!(a.store.nodes.len(), 3);
    let hand_id = a.index.id_of(&Name::BoneName("hand".to_owned())).unwrap();
    let arm_id = a.index.id_of(&Name::BoneName("arm".to_owned())).unwrap();
    let hand = a.store.get(hand_id).expect("hand is in the store");
    assert_eq!(hand.parent, Some(arm_id));
    let arm = a.store.get(arm_id).expect("arm is in the store");
    assert_eq!(arm.parent, Some(0));
}

#[test]
fn permuted_records_give_isomorphic_trees() {
    let atlas = simple_atlas();
    let doc1 = Character {
        slots: vec![
            slot("headSlot", "head", "neck", transform(1, 2)),
            slot("armSlot", "arm", "root", transform(3, 4)),
        ],
        bones: vec![bone("root", None), bone("neck", Some("root"))],
        animation: vec![],
    };
    let doc2 = Character {
        slots: vec![
            slot("armSlot", "arm", "root", transform(3, 4)),
            slot("headSlot", "head", "neck", transform(1, 2)),
        ],
        bones: vec![bone("neck", Some("root")), bone("root", None)],
        animation: vec![],
    };
    let a1 = assemble(&doc1, &atlas).expect("first order assembles");
    let a2 = assemble(&doc2, &atlas).expect("second order assembles");
    assert_eq!(a1.store.nodes.len(), a2.store.nodes.len());
    // The same identities exist, with the same payloads, under the same
    // parent identities, whatever the declaration order.
    for name in ["headSlot", "armSlot"] {
        let i1 = a1.index.id_of(&Name::SlotName(name.to_owned())).unwrap();
        let i2 = a2.index.id_of(&Name::SlotName(name.to_owned())).unwrap();
        let n1 = a1.store.get(i1).expect("in store one");
        let n2 = a2.store.get(i2).expect("in store two");
        assert_eq!(n1.node.kind, n2.node.kind);
        assert_eq!(n1.node.transform, n2.node.transform);
        let neck1 = a1.index.id_of(&Name::BoneName("neck".to_owned())).unwrap();
        let neck2 = a2.index.id_of(&Name::BoneName("neck".to_owned())).unwrap();
        if name == "headSlot" {
            assert_eq!(n1.parent, Some(neck1));
            assert_eq!(n2.parent, Some(neck2));
        } else {
            assert_eq!(n1.parent, Some(0));
            assert_eq!(n2.parent, Some(0));
        }
    }
}

#[test]
fn dangling_parent_fails_and_returns_no_store() {
    let atlas = simple_atlas();
    let doc = Character {
        slots: vec![slot("headSlot", "head", "ghost", transform(0, 0))],
        bones: vec![bone("root", None)],
        animation: vec![],
    };
    // The result is an error carrying the unresolved name; no store or
    // partial scene is handed out at all.
    match assemble(&doc, &atlas) {
        Err(LoadError::UnknownParent(p)) => assert_eq!(p, "ghost"),
        other => panic!("expected UnknownParent, got {:?}", other),
    }
}

#[test]
fn cyclic_parents_fail() {
    let atlas = simple_atlas();
    let doc = Character {
        slots: vec![],
        bones: vec![
            bone("root", None),
            bone("a", Some("b")),
            bone("b", Some("a")),
        ],
        animation: vec![],
    };
    assert!(matches!(assemble(&doc, &atlas), Err(LoadError::UnknownParent(_))));
}

#[test]
fn duplicate_identity_fails() {
    let atlas = simple_atlas();
    let doc = Character {
        slots: vec![
            slot("s", "head", "root", transform(0, 0)),
            slot("s", "arm", "root", transform(0, 0)),
        ],
        bones: vec![bone("root", None)],
        animation: vec![],
    };
    match assemble(&doc, &atlas) {
        Err(LoadError::DuplicateIdentity(n)) => {
            assert_eq!(n, Name::SlotName("s".to_owned()))
        },
        other => panic!("expected DuplicateIdentity, got {:?}", other),
    }
}

#[test]
fn unknown_region_fails() {
    let atlas = simple_atlas();
    let doc = Character {
        slots: vec![slot("s", "tail", "root", transform(0, 0))],
        bones: vec![bone("root", None)],
        animation: vec![],
    };
    match assemble(&doc, &atlas) {
        Err(LoadError::UnknownRegion(t)) => assert_eq!(t, "tail"),
        other => panic!("expected UnknownRegion, got {:?}", other),
    }
}

// ----- animation compilation -----

#[test]
fn translation_compiles_to_sequential_deltas() {
    // Three absolute samples compile to two relative segments: (5, 0) over
    // the first sample's duration, then (0, 5) over the second's.
    let frames = vec![
        TranslateKey { duration: 10 * S, x: 0, y: 0 },
        TranslateKey { duration: 10 * S, x: 5 * S, y: 0 },
        TranslateKey { duration: 20 * S, x: 5 * S, y: 5 * S },
    ];
    let segs = from_dragon_translation(&frames);
    assert_eq!(segs.len(), 2);
    assert_eq!(segs[0].duration, 10 * S);
    assert_eq!(segs[0].dx, 5 * S);
    assert_eq!(segs[0].dy, 0);
    assert_eq!(segs[0].ease, Easing::CubicInOut);
    assert_eq!(segs[1].duration, 10 * S);
    assert_eq!(segs[1].dx, 0);
    assert_eq!(segs[1].dy, 5 * S);
    assert_eq!(segs[1].ease, Easing::CubicInOut);
}

#[test]
fn single_keyframe_compiles_to_no_motion() {
    let frames = vec![TranslateKey { duration: 10 * S, x: 3 * S, y: 4 * S }];
    assert!(from_dragon_translation(&frames).is_empty());
    let rframes = vec![RotateKey { duration: 10 * S, rotate: S }];
    assert!(from_dragon_rotation(&rframes).is_empty());
    assert!(from_dragon_translation(&vec![]).is_empty());
}

#[test]
fn rotation_compiles_to_deltas() {
    let frames = vec![
        RotateKey { duration: 8 * S, rotate: 0 },
        RotateKey { duration: 4 * S, rotate: 45 * S },
    ];
    let segs = from_dragon_rotation(&frames);
    assert_eq!(segs.len(), 1);
    assert_eq!(segs[0].duration, 8 * S);
    assert_eq!(segs[0].dr, 45 * S);
}

#[test]
fn unknown_animation_target_fails() {
    let atlas = simple_atlas();
    let doc = Character {
        slots: vec![],
        bones: vec![bone("root", None)],
        animation: vec![BoneTrack {
            name: "ghost".to_owned(),
            translate: Some(vec![]),
            rotate: None,
        }],
    };
    let a = assemble(&doc, &atlas).expect("assembles");
    match Animations::from_dragon(&doc.animation, &a.index, a.root_id, 5) {
        Err(LoadError::UnknownAnimationTarget(n)) => assert_eq!(n, "ghost"),
        other => panic!("expected UnknownAnimationTarget, got {:?}", other),
    }
}

#[test]
fn trackless_bones_produce_no_entry() {
    let atlas = simple_atlas();
    let doc = Character {
        slots: vec![],
        bones: vec![bone("root", None), bone("neck", Some("root"))],
        animation: vec![
            BoneTrack { name: "neck".to_owned(), translate: None, rotate: None },
            BoneTrack {
                name: "root".to_owned(),
                translate: None,
                rotate: Some(vec![
                    RotateKey { duration: S, rotate: 0 },
                    RotateKey { duration: S, rotate: S },
                ]),
            },
        ],
    };
    let a = assemble(&doc, &atlas).expect("assembles");
    let anims = Animations::from_dragon(&doc.animation, &a.index, a.root_id, 5).unwrap();
    // The channel-less track yields nothing; the rotating root yields one.
    assert_eq!(anims.anims.len(), 1);
    assert_eq!(anims.anims[0].0, 0);
    assert!(anims.anims[0].1.translate.is_none());
    assert_eq!(anims.anims[0].1.rotate.as_ref().unwrap().len(), 1);
}

// ----- playback dispatch -----

#[test]
fn later_start_replaces_earlier() {
    let mut store = NodeStore::new();
    let p1 = dragon_skeleton::animation::BoneProgram {
        translate: Some(vec![]),
        rotate: None,
    };
    let p2 = dragon_skeleton::animation::BoneProgram {
        translate: None,
        rotate: Some(vec![]),
    };
    store.run_composition(7, p1);
    store.run_composition(7, p2);
    let active = store.active_composition(7).expect("one composition is active");
    assert!(active.translate.is_none());
    assert!(active.rotate.is_some());
    assert!(store.active_composition(8).is_none());
}

// ----- the whole load -----

#[test]
fn load_character_end_to_end() {
    let loaded =
        load_character(atlas_text(), skeleton_text(), DEFAULT_DURATION_DIVISOR).expect("loads");
    assert_eq!(loaded.scene.root_id, 0);
    // Root, neck, headSlot.
    assert_eq!(loaded.scene.store.nodes.len(), 3);
    let neck_id = loaded
        .scene
        .index
        .id_of(&Name::BoneName("neck".to_owned()))
        .unwrap();
    let head_id = loaded
        .scene
        .index
        .id_of(&Name::SlotName("headSlot".to_owned()))
        .unwrap();
    let head = loaded.scene.store.get(head_id).expect("head slot in store");
    assert_eq!(head.parent, Some(neck_id));
    // The compiled program drives the neck with both channels, raw
    // durations and the configured divisor.
    assert_eq!(loaded.animations.duration_divisor, DEFAULT_DURATION_DIVISOR);
    assert_eq!(loaded.animations.anims.len(), 1);
    let (target, program) = &loaded.animations.anims[0];
    assert_eq!(*target, neck_id);
    let translate = program.translate.as_ref().unwrap();
    assert_eq!(translate.len(), 2);
    assert_eq!(translate[0].duration, 10 * S);
    assert_eq!(translate[0].dx, 5 * S);
    assert_eq!(translate[1].dy, 5 * S);
    let rotate = program.rotate.as_ref().unwrap();
    assert_eq!(rotate.len(), 1);
    assert_eq!(rotate[0].dr, 45 * S);

    // Dispatching the program issues exactly one start per entry.
    let mut scene = loaded.scene;
    loaded.animations.play(&mut scene.store);
    assert_eq!(scene.store.running.len(), loaded.animations.anims.len());
    assert!(scene.store.active_composition(*target).is_some());
    // Replaying appends one more start per entry and leaves the same
    // composition active.
    loaded.animations.play(&mut scene.store);
    assert_eq!(scene.store.running.len(), 2 * loaded.animations.anims.len());
    assert!(scene.store.active_composition(*target).is_some());
}

#[test]
fn bone_named_root_is_merged_with_synthesized_root() {
    // The parsed "root" bone record yields no node of its own: the
    // synthesized root stands for it, and children attach under it.
    let atlas = simple_atlas();
    let doc = Character {
        slots: vec![],
        bones: vec![bone("root", None), bone("arm", Some("root"))],
        animation: vec![],
    };
    let a = assemble(&doc, &atlas).expect("assembles");
    assert_eq!(a.store.nodes.len(), 2);
    assert_eq!(
        a.index.id_of(&Name::BoneName("root".to_owned())),
        Some(0)
    );
}

#[test]
fn orphan_bone_is_rejected() {
    // Exactly one bone -- the root -- may lack a parent; a second
    // parentless bone is a malformed record, named by the error.
    let atlas = simple_atlas();
    let doc = Character {
        slots: vec![],
        bones: vec![bone("root", None), bone("loose", None)],
        animation: vec![],
    };
    match assemble(&doc, &atlas) {
        Err(LoadError::ParseError(n)) => assert_eq!(n, "loose"),
        other => panic!("expected ParseError, got {:?}", other),
    }
}

#[test]
fn identity_index_distinguishes_namespaces() {
    let mut ix = dragon_skeleton::scene::IdentityIndex::new();
    let node = dragon_skeleton::scene::Node {
        id: 1,
        kind: NodeKind::Bone,
        transform: Transform::empty(),
    };
    ix.push(Name::BoneName("x".to_owned()), Placement::Staged(node));
    assert!(ix.find(&Name::BoneName("x".to_owned())).is_some());
    assert!(ix.find(&Name::SlotName("x".to_owned())).is_none());
}

#[test]
fn divisor_is_carried_not_baked_in() {
    // The normalization factor is configuration: the compiled segments keep
    // raw durations, and the program records whichever divisor the compile
    // was given.
    let atlas = simple_atlas();
    let doc = Character {
        slots: vec![],
        bones: vec![bone("root", None)],
        animation: vec![BoneTrack {
            name: "root".to_owned(),
            translate: Some(vec![
                TranslateKey { duration: 10 * S, x: 0, y: 0 },
                TranslateKey { duration: 10 * S, x: 5 * S, y: 0 },
            ]),
            rotate: None,
        }],
    };
    let a = assemble(&doc, &atlas).expect("assembles");
    for divisor in [1u32, 5u32] {
        let anims = Animations::from_dragon(&doc.animation, &a.index, a.root_id, divisor)
            .expect("compiles");
        assert_eq!(anims.duration_divisor, divisor);
        let segs = anims.anims[0].1.translate.as_ref().unwrap();
        assert_eq!(segs[0].duration, 10 * S);
        assert_eq!(segs[0].dx, 5 * S);
    }
}
