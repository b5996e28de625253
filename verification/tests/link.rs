use git_append::age::{decrypt_under, encrypt_under, CryptError};
use git_append::config::{Config, Feature, GitAppender, GitConfig, GitLink};
use git_append::file::contents_as_lines;
use git_append::git::{branch_ref, default_branch_name, refspec, remote_name, tracking_branch};
use git_append::link::{
    check_config, decrypt_file, fragment_path, in_git_folder, is_selected, process_file,
    LookupError, ProcessError,
};
use git_append::pattern::ConfigError;

fn row(line: &str) -> Vec<u8> {
    line.as_bytes().to_vec()
}

fn rows(all: &[&str]) -> Vec<Vec<u8>> {
    all.iter().map(|line| row(line)).collect()
}

fn plain_link(source_path: &str) -> GitLink {
    GitLink {
        source_path: String::from(source_path),
        source_branch: None,
        password_file: None,
        remove_lines: None,
        exclude_patterns: None,
        features: None,
    }
}

fn example() -> Config {
    Config {
        appenders: vec![
            (
                String::from("/home/someone/repository-location"),
                GitAppender {
                    git_config: Some(GitConfig {
                        username: String::from("someone"),
                        token_file: String::from("/passwords/github_token"),
                    }),
                    links: vec![
                        (
                            String::from("/home/local/plaintext_file"),
                            GitLink {
                                source_branch: Some(String::from("chore/special-branch")),
                                remove_lines: Some(vec![String::from("first_ignored_line")]),
                                ..plain_link("file_in_git")
                            },
                        ),
                        (
                            String::from("/home/local/encrypted/plaintext_file"),
                            GitLink {
                                password_file: Some(String::from("/home/password-file")),
                                ..plain_link("other_file_in_git")
                            },
                        ),
                    ],
                    folder_links: Vec::new(),
                },
            ),
            (
                String::from("/home/some/other/repository-location"),
                GitAppender {
                    git_config: None,
                    links: vec![(String::from("/plaintext_file"), plain_link("file_in_git"))],
                    folder_links: vec![(
                        String::from("/plaintext_folder"),
                        plain_link("folder_in_git"),
                    )],
                },
            ),
        ],
    }
}

#[test]
fn a_file_is_fetched_from_the_branch_its_link_names() {
    let configs = example();
    match decrypt_file(
        &configs,
        &String::from("/home/someone/repository-location"),
        &String::from("file_in_git"),
    ) {
        Ok(plan) => {
            assert_eq!("/home/someone/repository-location/.git", plan.repository);
            assert_eq!("chore/special-branch", plan.source_branch);
            assert_eq!(&configs.appenders[0].1.git_config, plan.git_config);
        }
        Err(error) => panic!("{:?}", error),
    }
}

#[test]
fn a_file_is_fetched_from_master_where_its_link_names_no_branch() {
    let configs = example();
    match decrypt_file(
        &configs,
        &String::from("/home/some/other/repository-location"),
        &String::from("file_in_git"),
    ) {
        Ok(plan) => {
            assert_eq!("/home/some/other/repository-location/.git", plan.repository);
            assert_eq!("master", plan.source_branch);
            assert_eq!(&None, plan.git_config);
        }
        Err(error) => panic!("{:?}", error),
    }
}

#[test]
fn an_unknown_repository_location_is_reported() {
    let configs = example();
    let outcome = decrypt_file(
        &configs,
        &String::from("/home/nobody"),
        &String::from("file_in_git"),
    );
    assert_eq!(Some(LookupError::AppenderNotFound), outcome.err());
}

#[test]
fn a_file_that_no_link_names_is_reported() {
    let configs = example();
    let outcome = decrypt_file(
        &configs,
        &String::from("/home/some/other/repository-location"),
        &String::from("folder_in_git"),
    );
    assert_eq!(Some(LookupError::FileNotInConfig), outcome.err());
    let outcome = decrypt_file(
        &configs,
        &String::from("/home/some/other/repository-location"),
        &String::from("other_file_in_git"),
    );
    assert_eq!(Some(LookupError::FileNotInConfig), outcome.err());
}

#[test]
fn a_link_writes_the_union_where_a_side_lacks_lines() {
    let outcome = process_file(
        &plain_link("file_in_git"),
        rows(&["bc"]),
        row("a\nbc\n"),
        None,
        String::from("file_in_git"),
        &String::from("/repo"),
    );
    match outcome {
        Ok(done) => {
            assert_eq!(Some(row("a\nbc\n")), done.local_content);
            assert_eq!(None, done.remote_content);
            assert_eq!("/repo/file_in_git", done.remote_path);
            assert_eq!(Vec::<String>::new(), done.files);
            assert!(!done.needs_commit);
        }
        Err(error) => panic!("{:?}", error),
    }
}

#[test]
fn a_link_commits_what_the_remote_side_lacks() {
    let outcome = process_file(
        &plain_link("dir/file"),
        rows(&["bc", "a"]),
        Vec::new(),
        None,
        String::from("dir/file"),
        &String::from("/repo"),
    );
    match outcome {
        Ok(done) => {
            assert_eq!(None, done.local_content);
            assert_eq!(Some(row("a\nbc\n")), done.remote_content);
            assert_eq!("/repo/dir/file", done.remote_path);
            assert_eq!(vec![String::from("dir/file")], done.files);
            assert!(done.needs_commit);
        }
        Err(error) => panic!("{:?}", error),
    }
}

#[test]
fn a_link_applies_its_own_rules() {
    let link = GitLink {
        remove_lines: Some(vec![String::from("f")]),
        exclude_patterns: Some(vec![String::from("^#")]),
        features: Some(vec![Feature::RemoveMultilinesBash]),
        ..plain_link("file_in_git")
    };
    let outcome = process_file(
        &link,
        rows(&["f", "a\\", "b", "# note"]),
        row("c"),
        None,
        String::from("file_in_git"),
        &String::from("/repo"),
    );
    match outcome {
        Ok(done) => {
            assert_eq!(Some(row("a b\nc\n")), done.local_content);
            assert_eq!(Some(row("a b\nc\n")), done.remote_content);
            assert!(done.needs_commit);
        }
        Err(error) => panic!("{:?}", error),
    }
}

#[test]
fn a_link_with_a_passphrase_reads_and_writes_ciphertext() {
    let link = GitLink {
        password_file: Some(String::from("/home/password-file")),
        ..plain_link("other_file_in_git")
    };
    let fragment = match encrypt_under(&row("a\n"), "secret") {
        Ok(fragment) => fragment,
        Err(error) => panic!("{:?}", error),
    };
    let outcome = process_file(
        &link,
        rows(&["b"]),
        fragment,
        Some("secret"),
        String::from("other_file_in_git"),
        &String::from("/repo"),
    );
    match outcome {
        Ok(done) => {
            assert_eq!(Some(row("a\nb\n")), done.local_content);
            let written = match done.remote_content {
                Some(written) => written,
                None => panic!("the remote side lacks a line and was handed nothing"),
            };
            assert_ne!(row("a\nb\n"), written);
            assert!(!written.is_empty());
            assert_eq!(Ok(rows(&["a", "b", ""])), decrypt_under(&written, "secret"));
            assert_eq!(vec![String::from("other_file_in_git")], done.files);
            assert!(done.needs_commit);
        }
        Err(error) => panic!("{:?}", error),
    }
}

#[test]
fn a_link_with_a_passphrase_starts_from_an_empty_fragment() {
    let link = GitLink {
        password_file: Some(String::from("/home/password-file")),
        ..plain_link("other_file_in_git")
    };
    let outcome = process_file(
        &link,
        Vec::new(),
        Vec::new(),
        Some("secret"),
        String::from("other_file_in_git"),
        &String::from("/repo"),
    );
    match outcome {
        Ok(done) => {
            assert_eq!(None, done.local_content);
            assert_eq!(None, done.remote_content);
            assert!(!done.needs_commit);
        }
        Err(error) => panic!("{:?}", error),
    }
}

#[test]
fn a_link_reports_a_fragment_it_cannot_read() {
    let outcome = process_file(
        &plain_link("file_in_git"),
        rows(&["b"]),
        row("plain"),
        Some("secret"),
        String::from("file_in_git"),
        &String::from("/repo"),
    );
    match outcome {
        Err(ProcessError::Crypt(error)) => assert_eq!(CryptError::Decryption, error),
        _ => panic!("a fragment that is no age file was read"),
    }
}

#[test]
fn a_link_reports_a_malformed_pattern() {
    let link = GitLink {
        exclude_patterns: Some(vec![String::from("*")]),
        ..plain_link("file_in_git")
    };
    let outcome = process_file(
        &link,
        rows(&["b"]),
        row("a"),
        None,
        String::from("file_in_git"),
        &String::from("/repo"),
    );
    match outcome {
        Err(ProcessError::Config(ConfigError::MalformedPattern(pattern))) => {
            assert_eq!("*", pattern)
        }
        _ => panic!("a malformed pattern went through"),
    }
}

#[test]
fn a_malformed_pattern_is_reported_before_the_fragment_is_read() {
    let link = GitLink {
        exclude_patterns: Some(vec![String::from("a"), String::from("(b")]),
        ..plain_link("file_in_git")
    };
    let outcome = process_file(
        &link,
        rows(&["b"]),
        row("no age file"),
        Some("secret"),
        String::from("file_in_git"),
        &String::from("/repo"),
    );
    match outcome {
        Err(ProcessError::Config(ConfigError::MalformedPattern(pattern))) => {
            assert_eq!("(b", pattern)
        }
        _ => panic!("a malformed pattern went through"),
    }
}

#[test]
fn a_configuration_of_sound_patterns_is_accepted() {
    assert!(check_config(&example()).is_ok());
    assert!(check_config(&Config {
        appenders: Vec::new()
    })
    .is_ok());
}

#[test]
fn a_configuration_with_a_malformed_pattern_is_refused() {
    let mut configs = example();
    configs.appenders[1].1.folder_links[0].1.exclude_patterns =
        Some(vec![String::from("^ok$"), String::from("[z-a]")]);
    match check_config(&configs) {
        Err(ConfigError::MalformedPattern(pattern)) => assert_eq!("[z-a]", pattern),
        Ok(_) => panic!("a malformed pattern went through"),
    }
    let mut configs = example();
    configs.appenders[0].1.links[1].1.exclude_patterns = Some(vec![String::from("(")]);
    match check_config(&configs) {
        Err(ConfigError::MalformedPattern(pattern)) => assert_eq!("(", pattern),
        Ok(_) => panic!("a malformed pattern went through"),
    }
}

#[test]
fn a_run_takes_every_appender_or_the_one_asked_for() {
    let location = String::from("/home/someone/repository-location");
    assert!(is_selected(&location, &None));
    assert!(is_selected(&location, &Some(location.clone())));
    assert!(!is_selected(&location, &Some(String::from("/home/someone"))));
}

#[test]
fn a_file_of_a_linked_folder_has_its_fragment_under_the_folders_source() {
    assert_eq!(
        "folder_in_git/sub/file",
        fragment_path("folder_in_git", "sub/file")
    );
}

#[test]
fn a_path_that_holds_dot_git_is_left_out() {
    assert!(in_git_folder("/plaintext_folder/.git/config"));
    assert!(in_git_folder(".git"));
    assert!(in_git_folder("/plaintext_folder/.gitignore"));
    assert!(in_git_folder("/a/b.git"));
    assert!(!in_git_folder("/plaintext_folder/git/config"));
    assert!(!in_git_folder("/plaintext_folder/.gi"));
    assert!(!in_git_folder(".gi.t"));
    assert!(!in_git_folder(""));
}

#[test]
fn the_remote_and_its_branches_have_their_names() {
    assert_eq!("http-origin", remote_name());
    assert_eq!("master", default_branch_name());
    assert_eq!("refs/heads/master", branch_ref("master"));
    assert_eq!(
        "refs/heads/chore/x:refs/heads/chore/x",
        refspec("chore/x")
    );
    assert_eq!("http-origin/master", tracking_branch("master"));
}

#[test]
fn a_link_that_was_run_has_nothing_left_to_do() {
    let link = GitLink {
        password_file: Some(String::from("/home/password-file")),
        remove_lines: Some(vec![String::from("f")]),
        ..plain_link("other_file_in_git")
    };
    let fragment = match encrypt_under(&row("a\nf\n"), "secret") {
        Ok(fragment) => fragment,
        Err(error) => panic!("{:?}", error),
    };
    let first = match process_file(
        &link,
        rows(&["b", ""]),
        fragment,
        Some("secret"),
        String::from("other_file_in_git"),
        &String::from("/repo"),
    ) {
        Ok(done) => done,
        Err(error) => panic!("{:?}", error),
    };
    assert_eq!(Some(row("a\nb\n")), first.local_content);
    let written = match first.remote_content {
        Some(written) => written,
        None => panic!("the remote side holds a line to remove and was handed nothing"),
    };
    let again = match process_file(
        &link,
        contents_as_lines(&row("a\nb\n")),
        written,
        Some("secret"),
        String::from("other_file_in_git"),
        &String::from("/repo"),
    ) {
        Ok(done) => done,
        Err(error) => panic!("{:?}", error),
    };
    assert_eq!(None, again.local_content);
    assert_eq!(None, again.remote_content);
    assert_eq!(Vec::<String>::new(), again.files);
    assert!(!again.needs_commit);
}
