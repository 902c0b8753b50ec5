use bricks::lenses::{parse_instructions, part1, part2, Instruction, LabeledLens, LensArray, LensBox};

#[test]
fn test_lens_array_power() {
    let mut array = LensArray::default();
    array.lens_boxes[0].lenses = vec![
        LabeledLens {
            label: "rn".to_string(),
            focal_length: 1,
        },
        LabeledLens {
            label: "cm".to_string(),
            focal_length: 2,
        },
    ];
    array.lens_boxes[3].lenses = vec![
        LabeledLens {
            label: "ot".to_string(),
            focal_length: 7,
        },
        LabeledLens {
            label: "ab".to_string(),
            focal_length: 5,
        },
        LabeledLens {
            label: "pc".to_string(),
            focal_length: 6,
        },
    ];
    assert_eq!(array.lens_boxes[0].power(1), 1 + 4);
    assert_eq!(array.lens_boxes[3].power(4), 28 + 40 + 72);
}

#[test]
fn empty_boxes() {
    let array = LensArray::default();
    assert_eq!(array.lens_boxes.len(), 256);
    assert!(array.lens_boxes[255].is_empty());
    let b = LensBox::default();
    assert_eq!(b.power(9), 0);
    let lens = LabeledLens { label: "qp".to_string(), focal_length: 3 };
    assert_eq!(lens.power(2), 6);
}


#[test]
fn lens_hash_sum() {
    assert_eq!(
        part1("rn=1,cm-,qp=3,cm=2,qp-,pc=4,ot=9,ab=5,pc-,pc=6,ot=7"),
        1320
    );
}

#[test]
fn test_instruction_from_str() {
    assert_eq!(
        Instruction::try_from("rn=1"),
        Ok(Instruction::Insert("rn".to_string(), 1))
    );
    assert_eq!(
        Instruction::try_from("cm=2"),
        Ok(Instruction::Insert("cm".to_string(), 2))
    );
    assert_eq!(
        Instruction::try_from("qp-"),
        Ok(Instruction::Remove("qp".to_string()))
    );
}

#[test]
fn test_instruction_target() {
    assert_eq!(Instruction::try_from("rn=1").map(|ins| ins.target()), Ok(0));
    assert_eq!(Instruction::try_from("cm-").map(|ins| ins.target()), Ok(0));
    assert_eq!(Instruction::try_from("pc=4").map(|ins| ins.target()), Ok(3));
}

#[test]
fn test_lens_box_perform() {
    let mut b = LensBox::default();
    b.perform(&Instruction::Insert("rn".to_string(), 1));
    assert_eq!(
        b,
        LensBox {
            lenses: vec![LabeledLens {
                label: "rn".to_string(),
                focal_length: 1,
            }]
        }
    );
    b.perform(&Instruction::Insert("cm".to_string(), 2));
    assert_eq!(
        b,
        LensBox {
            lenses: vec![
                LabeledLens {
                    label: "rn".to_string(),
                    focal_length: 1,
                },
                LabeledLens {
                    label: "cm".to_string(),
                    focal_length: 2,
                }
            ]
        }
    );
    b.perform(&Instruction::Remove("cm".to_string()));
    assert_eq!(
        b,
        LensBox {
            lenses: vec![LabeledLens {
                label: "rn".to_string(),
                focal_length: 1,
            },]
        }
    );
}

#[test]
fn test_lens_array_perform_sequence() {
    const EXAMPLE: &str = "rn=1,cm-,qp=3,cm=2,qp-,pc=4,ot=9,ab=5,pc-,pc=6,ot=7";
    let instructions: Vec<Instruction> =
        parse_instructions(EXAMPLE).expect("example instructions should be valid");
    let mut array = LensArray::default();
    array.perform_sequence(&instructions, true);
    assert_eq!(
        array.lens_boxes[0],
        LensBox {
            lenses: vec![
                LabeledLens {
                    label: "rn".to_string(),
                    focal_length: 1,
                },
                LabeledLens {
                    label: "cm".to_string(),
                    focal_length: 2,
                },
            ]
        }
    );
}

#[test]
fn lens_focusing_power() {
    const EXAMPLE: &str = "rn=1,cm-,qp=3,cm=2,qp-,pc=4,ot=9,ab=5,pc-,pc=6,ot=7";
    assert_eq!(part2(EXAMPLE, true), 145);
}

#[test]
fn malformed_instructions() {
    assert!(Instruction::try_from("ab").is_err());
    assert!(Instruction::try_from("ab=x").is_err());
    assert!(Instruction::try_from("ab=256").is_err());
    assert!(Instruction::try_from("ab=-1").is_err());
    assert!(parse_instructions("rn=1,,qp-").is_err());
}

#[test]
fn insert_replaces_in_place() {
    let mut b = LensBox::default();
    b.insert("a", 1);
    b.insert("b", 2);
    b.insert("a", 9);
    assert_eq!(b.lenses[0].focal_length, 9);
    assert_eq!(b.lenses[1].label, "b".to_string());
    b.remove("zz");
    assert_eq!(b.lenses.len(), 2);
}
