use dolomedes::cli::{choose_mode, CliError, Mode, SetupArgs};

#[test]
fn setup_alone_uses_defaults() {
    match choose_mode(Some(SetupArgs { datadir: None, port: None }), None) {
        Ok(Mode::Setup { config_path, datadir, port }) => {
            assert_eq!(config_path, "dolomedes.cfg");
            assert_eq!(datadir, "dolomedes/data");
            assert_eq!(port, 31460);
        }
        other => panic!("unexpected {:?}", other),
    }
}

#[test]
fn setup_options_override_defaults() {
    match choose_mode(Some(SetupArgs { datadir: Some("/d".to_string()), port: Some(7) }), None) {
        Ok(Mode::Setup { config_path, datadir, port }) => {
            assert_eq!(config_path, "dolomedes.cfg");
            assert_eq!(datadir, "/d");
            assert_eq!(port, 7);
        }
        other => panic!("unexpected {:?}", other),
    }
}

#[test]
fn config_path_alone_serves() {
    match choose_mode(None, Some("node.cfg".to_string())) {
        Ok(Mode::Serve { config_path }) => assert_eq!(config_path, "node.cfg"),
        other => panic!("unexpected {:?}", other),
    }
}

#[test]
fn conflicting_or_missing_arguments_are_errors() {
    assert_eq!(choose_mode(None, None).err(), Some(CliError::MissingConfigPath));
    assert_eq!(
        choose_mode(Some(SetupArgs { datadir: None, port: None }), Some("x".to_string())).err(),
        Some(CliError::SetupWithConfigPath)
    );
}
