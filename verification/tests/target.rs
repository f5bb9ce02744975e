use mortar::label::Label;
use mortar::target::Target;

#[test]
fn a_target_keeps_its_labels() {
    let inputs = vec![Label::new("//a:b", "r", "p").unwrap(), Label::new(":c", "r", "p").unwrap()];
    let outputs = vec![Label::new("out", "r", "p").unwrap()];
    let target = Target::new(inputs, outputs);
    assert_eq!(
        target,
        Target {
            inputs: vec![
                Label { repository: "r".into(), package: "a".into(), target: "b".into() },
                Label { repository: "r".into(), package: "p".into(), target: "c".into() },
            ],
            outputs: vec![Label {
                repository: "r".into(),
                package: "p/out".into(),
                target: "out".into()
            }],
        }
    );
}
