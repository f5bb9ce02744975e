use mortar::env::reference::{CommandSpec, EnvError, EnvironmentId, Mapping, Reference};
use mortar::env::Environment;

fn render(command: &CommandSpec) -> String {
    let mut text = format!("{:?}", command.program);
    for arg in &command.args {
        text.push(' ');
        text.push_str(&format!("{:?}", arg));
    }
    text
}

fn command(program: &str, args: &[&str]) -> CommandSpec {
    CommandSpec {
        program: program.to_owned(),
        args: args.iter().map(|arg| arg.to_string()).collect(),
    }
}

/// Creates the common environment for the rest of testing.
fn create_env() -> Environment {
    Environment::new(
        "/tmp/a b".to_owned(),
        vec![
            Mapping::from_fs("/tmp/b/3 3", None, false),
            Mapping::from_fs("/tmp/c/7", None, true),
        ],
    )
}

#[test]
fn as_commands() {
    assert_eq!(
        create_env()
            .as_commands()
            .unwrap()
            .iter()
            .map(|v| render(v))
            .collect::<Vec<_>>(),
        vec![
            "\"bindfs\" \"--no-allow-other\" \"-r\" \"/tmp/c/7\" \"/tmp/a b/7\"".to_string(),
            "\"proot\" \"-r\" \"/tmp/a b\" \"-w\" \"/\" \"-b\" \"/tmp/b/3 3\"".to_string(),
        ]
    );
}

#[test]
fn get_reference() {
    let env = create_env();

    assert_eq!(env.get_reference("/smth"), Reference::new(Some(env.id), "/smth"));
}

#[test]
fn run_command() {
    let a = render(
        Environment::new("/tmp/a".to_owned(), vec![Mapping::from_fs("/nix", None, false)])
            .run_command(&command("echo", &["Hello, World!"]))
            .unwrap()
            .last()
            .unwrap(),
    );

    assert_eq!(
        a,
        "\"proot\" \"-r\" \"/tmp/a\" \"-w\" \"/\" \"-b\" \"/nix\" \"echo\" \"Hello, World!\""
    )
}

#[test]
fn yes() {
    assert_eq!(
        Mapping::from_fs("/a:a", Some("/b"), true).to_string().unwrap(),
        "/a\\:a:/b"
    );
}

#[test]
fn get_binding() {
    assert_eq!(
        render(&Mapping::from_fs("/a:a", Some("/b"), true).as_bind("/test").unwrap()),
        "\"bindfs\" \"--no-allow-other\" \"-r\" \"/a:a\" \"/test/b\""
    );
}

#[test]
fn rendering_without_colon_is_the_path() {
    assert_eq!(Mapping::from_fs("/tmp/b/3 3", None, false).to_string().unwrap(), "/tmp/b/3 3");
}

#[test]
fn rendering_escapes_every_colon_of_the_source_only() {
    assert_eq!(Mapping::from_fs("::a:", None, false).to_string().unwrap(), "\\:\\:a\\:");
    assert_eq!(Mapping::from_fs("a:b", Some("c:d"), false).to_string().unwrap(), "a\\:b:c:d");
    assert_eq!(Mapping::from_fs("", Some(""), false).to_string().unwrap(), ":");
    assert_eq!(Mapping::from_fs("é:ü", None, true).to_string().unwrap(), "é\\:ü");
}

#[test]
fn the_place_of_a_mapping_lies_inside_the_root() {
    let cases = [
        ("/a:a", Some("/b"), "/test", "/test/b"),
        ("/a", Some("//b/c/"), "/test", "/test/b/c"),
        ("/a", Some("../../b"), "/test", "/test/b"),
        ("/a", Some("x/./y/../z"), "/test/", "/test/x/z"),
        ("/a", Some(""), "/test", "/test"),
        ("/a", Some("/"), "/test", "/test"),
        ("/a", Some(".."), "/test", "/test"),
        ("/tmp/c/7", None, "/tmp/a b", "/tmp/a b/7"),
        ("/tmp/c/7/", None, "/r", "/r/7"),
        ("/tmp/c/..", None, "/r", "/r/tmp"),
        ("file", None, "/r", "/r/file"),
        ("/", None, "/r", "/r"),
        ("", None, "/r", "/r"),
        ("/x", Some("b"), "", "b"),
        ("/x", Some("b"), "/", "/b"),
    ];
    for (source, alias, root, mount) in cases {
        let command = Mapping::from_fs(source, alias, true).as_bind(root).unwrap();
        assert_eq!(
            command,
            CommandSpec {
                program: "bindfs".to_owned(),
                args: vec![
                    "--no-allow-other".to_owned(),
                    "-r".to_owned(),
                    source.to_owned(),
                    mount.to_owned()
                ],
            },
            "{:?} {:?} {:?}",
            source,
            alias,
            root
        );
        assert!(command.args[3].starts_with(root));
    }
}

#[test]
fn a_relative_place_is_mounted_under_the_root() {
    assert_eq!(
        Mapping::from_fs("/src", Some("in/here"), true).as_bind("/root"),
        Ok(command("bindfs", &["--no-allow-other", "-r", "/src", "/root/in/here"]))
    );
    assert_eq!(
        Mapping::from_fs("rel", None, true).as_bind("/root/"),
        Ok(command("bindfs", &["--no-allow-other", "-r", "rel", "/root/rel"]))
    );
}

#[test]
fn setup_commands_come_before_the_entry() {
    let environment = Environment::new(
        "/r".to_owned(),
        vec![
            Mapping::from_fs("/w1", None, false),
            Mapping::from_fs("/ro1", None, true),
            Mapping::from_fs("/w2", Some("/x"), false),
            Mapping::from_fs("/ro2", Some("y"), true),
        ],
    );
    assert_eq!(
        environment.as_commands(),
        Ok(vec![
            command("bindfs", &["--no-allow-other", "-r", "/ro1", "/r/ro1"]),
            command("bindfs", &["--no-allow-other", "-r", "/ro2", "/r/y"]),
            command("proot", &["-r", "/r", "-w", "/", "-b", "/w1", "-b", "/w2:/x"]),
        ])
    );
}

#[test]
fn an_environment_without_mappings_is_only_entered() {
    let environment = Environment::new("/r".to_owned(), vec![]);
    assert_eq!(environment.as_commands(), Ok(vec![command("proot", &["-r", "/r", "-w", "/"])]));
}

#[test]
fn run_command_changes_the_last_command_only() {
    let environment = create_env();
    let plain = environment.as_commands().unwrap();
    let action = command("sh", &["-c", "echo \"$HOME\" 'a b'; ls", ""]);
    let run = environment.run_command(&action).unwrap();
    assert_eq!(run.len(), plain.len());
    assert_eq!(run[..run.len() - 1], plain[..plain.len() - 1]);
    let last = run.last().unwrap();
    let entry = plain.last().unwrap();
    assert_eq!(last.program, entry.program);
    let mut expected = entry.args.clone();
    expected.push(action.program.clone());
    expected.extend(action.args.iter().cloned());
    assert_eq!(last.args, expected);
}

#[test]
fn run_command_without_arguments_adds_the_program() {
    let environment = Environment::new("/r".to_owned(), vec![]);
    assert_eq!(
        environment.run_command(&command("true", &[])),
        Ok(vec![command("proot", &["-r", "/r", "-w", "/", "true"])])
    );
}

#[test]
fn a_path_inside_an_environment_is_unsupported() {
    let other = create_env();
    let inside = other.get_reference("/out");
    assert_eq!(inside.real_path(), Err(EnvError::Unsupported));
    assert_eq!(Reference::new(None, "/out").real_path(), Ok("/out".to_owned()));
    for read_only in [false, true] {
        let mapping = Mapping::from_reference(other.get_reference("/out"), None, read_only);
        assert_eq!(mapping.to_string(), Err(EnvError::Unsupported));
        assert_eq!(mapping.as_bind("/r"), Err(EnvError::Unsupported));
        let environment = Environment::new(
            "/r".to_owned(),
            vec![Mapping::from_fs("/a", None, true), mapping],
        );
        assert_eq!(environment.as_commands(), Err(EnvError::Unsupported));
        assert_eq!(
            environment.run_command(&command("true", &[])),
            Err(EnvError::Unsupported)
        );
    }
}

#[test]
fn from_reference_keeps_the_reference() {
    let mapping = Mapping::from_reference(Reference::new(None, "/a"), Some("b"), true);
    assert_eq!(
        mapping,
        Mapping {
            source: Reference { environment: None, path: "/a".to_owned() },
            alias: Some("b".to_owned()),
            read_only: true,
        }
    );
    assert_eq!(mapping, Mapping::from_fs("/a", Some("b"), true));
}

#[test]
fn an_environment_keeps_what_it_is_given() {
    let id = EnvironmentId { value: 7 };
    let environment =
        Environment::with_id(id, "/r".to_owned(), vec![Mapping::from_fs("/a", None, true)]);
    assert_eq!(environment.id, id);
    assert_eq!(environment.root, "/r");
    assert_eq!(environment.mappings, vec![Mapping::from_fs("/a", None, true)]);
    assert_eq!(
        environment.get_reference("x"),
        Reference { environment: Some(id), path: "x".to_owned() }
    );
}

#[test]
fn new_environments_have_identifiers_of_their_own() {
    let first = Environment::new("/r".to_owned(), vec![]);
    let second = Environment::new("/r".to_owned(), vec![]);
    assert_ne!(first.id, second.id);
    assert_eq!(first.root, second.root);
}
