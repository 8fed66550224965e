//! Reading the command line.

use mixlyzer::cli::args::{parse, usage, ArgError, Args, Command};
use mixlyzer::number::binary64::Binary64;

fn f(x: f64) -> Binary64 {
    Binary64::from_bits(x.to_bits())
}

fn read(items: &[String]) -> Result<Args, ArgError> {
    let numbers = items.iter().map(|item| item.parse::<f64>().ok().map(f)).collect();
    parse(&items.to_vec(), &numbers)
}

fn argv(items: &[&str]) -> Vec<String> {
    items.iter().map(|s| s.to_string()).collect()
}

#[test]
fn no_arguments_shows_help() {
    assert_eq!(read(&[]).unwrap().command, Command::Help);
}

#[test]
fn help_and_version_are_recognised_in_every_spelling() {
    for spelling in ["help", "--help", "-h"] {
        assert_eq!(read(&argv(&[spelling])).unwrap().command, Command::Help);
    }
    for spelling in ["version", "--version", "-V"] {
        assert_eq!(read(&argv(&[spelling])).unwrap().command, Command::Version);
    }
}

#[test]
fn analyze_takes_a_path_and_an_optional_json_flag() {
    let args = read(&argv(&["analyze", "song.flac"])).unwrap();
    assert_eq!(
        args.command,
        Command::Analyze {
            path: "song.flac".to_string(),
            json: false
        }
    );
    let args = read(&argv(&["analyze", "--json", "song.flac"])).unwrap();
    assert!(matches!(args.command, Command::Analyze { json: true, .. }));
}

#[test]
fn british_spelling_works_too() {
    assert!(matches!(
        read(&argv(&["analyse", "song.flac"])).unwrap().command,
        Command::Analyze { .. }
    ));
}

#[test]
fn a_missing_path_is_reported_against_the_command() {
    assert_eq!(
        read(&argv(&["analyze"])),
        Err(ArgError::MissingValue("analyze", "a file path"))
    );
}

#[test]
fn an_unknown_option_names_the_command_it_was_given_to() {
    assert_eq!(
        read(&argv(&["add", "x.flac", "--wat"])),
        Err(ArgError::UnknownOption("--wat".to_string(), "add"))
    );
}

#[test]
fn an_unknown_command_is_reported_verbatim() {
    assert_eq!(
        read(&argv(&["frobnicate"])),
        Err(ArgError::UnknownCommand("frobnicate".to_string()))
    );
}

#[test]
fn global_options_are_accepted_before_or_after_the_command() {
    let before = read(&argv(&["--library", "lib", "list"])).unwrap();
    let after = read(&argv(&["list", "--library", "lib"])).unwrap();
    assert_eq!(before.library, Some("lib".to_string()));
    assert_eq!(after.library, Some("lib".to_string()));
    assert_eq!(before.command, after.command);
}

#[test]
fn the_config_path_defaults_and_can_be_overridden() {
    assert_eq!(read(&argv(&["list"])).unwrap().config, "config.json".to_string());
    assert_eq!(
        read(&argv(&["--config", "other.json", "list"])).unwrap().config,
        "other.json".to_string()
    );
}

#[test]
fn a_global_option_without_its_value_is_reported() {
    assert_eq!(
        read(&argv(&["--config"])),
        Err(ArgError::MissingValue("--config", "a path"))
    );
}

#[test]
fn transitions_requires_both_tempos() {
    assert_eq!(
        read(&argv(&["transitions", "--from", "128"])),
        Err(ArgError::MissingValue("transitions", "--to <bpm>"))
    );
    let args = read(&argv(&["transitions", "--from", "128", "--to", "140"])).unwrap();
    assert_eq!(
        args.command,
        Command::Transitions {
            from_bpm: f(128.0),
            to_bpm: f(140.0),
            tolerance: f(3.0)
        }
    );
}

#[test]
fn a_non_numeric_tempo_is_rejected_rather_than_silently_zero() {
    assert_eq!(
        read(&argv(&["transitions", "--from", "fast", "--to", "140"])),
        Err(ArgError::NotANumber("fast".to_string()))
    );
}

#[test]
fn export_takes_an_optional_output_path() {
    let args = read(&argv(&["export", "song.flac", "--out", "out.xml"])).unwrap();
    assert_eq!(
        args.command,
        Command::Export {
            path: "song.flac".to_string(),
            out: Some("out.xml".to_string())
        }
    );
}

#[test]
fn list_defaults_to_newest_first() {
    assert_eq!(
        read(&argv(&["list"])).unwrap().command,
        Command::List {
            order_by: "added_ts DESC".to_string()
        }
    );
}

#[test]
fn migrate_accepts_a_dry_run() {
    assert_eq!(
        read(&argv(&["migrate", "--dry-run"])).unwrap().command,
        Command::Migrate { dry_run: true }
    );
}

#[test]
fn the_usage_names_every_command() {
    for command in ["analyze", "add", "list", "export", "migrate", "transitions"] {
        assert!(usage().contains(command), "{command}");
    }
}

#[test]
fn the_value_of_an_option_is_never_the_file() {
    let args = read(&argv(&["export", "--out", "out.xml", "song.flac"])).unwrap();
    assert_eq!(
        args.command,
        Command::Export { path: "song.flac".to_string(), out: Some("out.xml".to_string()) }
    );
    assert_eq!(args.config, "config.json");
    assert_eq!(args.library, None);
    assert_eq!(
        read(&argv(&["export", "--out", "out.xml"])),
        Err(ArgError::MissingValue("export", "a file path"))
    );
    assert_eq!(read(&argv(&["export", "--out"])), Err(ArgError::MissingValue("export", "a file path")));
}

#[test]
fn the_place_of_the_library_option_never_matters() {
    for plain in [
        vec!["export", "song.flac", "--out", "out.xml"],
        vec!["transitions", "--from-bpm", "120", "--to-bpm", "x"],
        vec!["--config", "other.json", "list"],
        vec![],
    ] {
        let without = read(&argv(&plain));
        for at in 0..=plain.len() {
            if at > 0 && plain[at - 1] == "--config" {
                continue;
            }
            let mut words = plain.clone();
            words.insert(at, "lib.db");
            words.insert(at, "--library");
            let with = read(&argv(&words));
            match &without {
                Ok(args) => {
                    let got = with.unwrap();
                    assert_eq!(got.library.as_deref(), Some("lib.db"));
                    assert_eq!(got.config, args.config);
                    assert_eq!(got.command, args.command);
                },
                Err(fault) => assert_eq!(&with.unwrap_err(), fault),
            }
        }
    }
}
