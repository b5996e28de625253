use git_append::appender::append;
use git_append::blob::split_lines;
use git_append::config::Feature;
use git_append::file::contents_as_lines;

fn line(text: &str) -> Vec<u8> {
    text.as_bytes().to_vec()
}

fn side(all: &[&str]) -> Vec<Vec<u8>> {
    all.iter().map(|text| line(text)).collect()
}

fn rules() -> (Vec<String>, Vec<String>, Vec<Feature>) {
    (
        vec![String::from("f")],
        vec![String::from("^#")],
        vec![Feature::RemoveMultilinesBash],
    )
}

fn reconciled(remote: &Vec<Vec<u8>>, local: &Vec<Vec<u8>>) -> (Option<Vec<u8>>, Option<Vec<u8>>) {
    let (remove_lines, exclude_patterns, features) = rules();
    append(
        remote.clone(),
        local.clone(),
        remove_lines,
        exclude_patterns,
        features,
    )
}

fn fed_back(side: &Vec<Vec<u8>>, update: &Option<Vec<u8>>) -> Vec<Vec<u8>> {
    match update {
        Some(blob) => split_lines(blob),
        None => side.clone(),
    }
}

fn samples() -> Vec<(Vec<Vec<u8>>, Vec<Vec<u8>>)> {
    vec![
        (side(&[]), side(&[])),
        (side(&["a", "bc"]), side(&["bc"])),
        (side(&[]), side(&["bc"])),
        (side(&["b", "a"]), side(&["a", "b"])),
        (side(&["a", "bc", "f"]), side(&["bc"])),
        (side(&["f"]), side(&["# note"])),
        (side(&["d\\", "bc", "f"]), side(&["e\\", "bc", "x\\"])),
        (side(&["z", "", "z", "y"]), side(&["y\\", "", "z"])),
    ]
}

#[test]
fn a_second_reconciliation_hands_nothing_out() {
    for (remote, local) in samples() {
        let (local_update, remote_update) = reconciled(&remote, &local);
        let again = reconciled(
            &fed_back(&remote, &remote_update),
            &fed_back(&local, &local_update),
        );
        assert_eq!((None, None), again);
    }
}

#[test]
fn the_sides_can_be_exchanged() {
    for (remote, local) in samples() {
        let (to_local, to_remote) = reconciled(&remote, &local);
        assert_eq!((to_remote, to_local), reconciled(&local, &remote));
    }
}

#[test]
fn an_update_ends_with_one_newline_or_is_empty() {
    let mut seen_empty = false;
    let mut seen_full = false;
    for (remote, local) in samples() {
        let (to_local, to_remote) = reconciled(&remote, &local);
        for blob in [to_local, to_remote].into_iter().flatten() {
            if blob.is_empty() {
                seen_empty = true;
            } else {
                seen_full = true;
                assert!(blob.len() >= 2);
                assert_eq!(b'\n', blob[blob.len() - 1]);
                assert_ne!(b'\n', blob[blob.len() - 2]);
            }
        }
    }
    assert!(seen_empty && seen_full);
}

#[test]
fn an_update_holds_no_line_twice() {
    for (remote, local) in samples() {
        let (to_local, to_remote) = reconciled(&remote, &local);
        for blob in [to_local, to_remote].into_iter().flatten() {
            let mut rows = split_lines(&blob);
            assert_eq!(Some(Vec::new()), rows.pop());
            let mut sorted = rows.clone();
            sorted.sort();
            sorted.dedup();
            assert_eq!(sorted, rows);
        }
    }
}

#[test]
fn a_line_with_a_newline_in_it_does_not_converge() {
    let remote = side(&[]);
    let local = side(&["a\nb"]);
    let (to_local, to_remote) =
        append(remote.clone(), local.clone(), Vec::new(), Vec::new(), Vec::new());
    assert_eq!((None, Some(line("a\nb\n"))), (to_local.clone(), to_remote.clone()));
    let again = append(
        fed_back(&remote, &to_remote),
        fed_back(&local, &to_local),
        Vec::new(),
        Vec::new(),
        Vec::new(),
    );
    assert_eq!((Some(line("a\na\nb\nb\n")), Some(line("a\na\nb\nb\n"))), again);
}

#[test]
fn a_working_file_reads_back_what_it_was_handed() {
    for (remote, local) in samples() {
        let (local_update, remote_update) = reconciled(&remote, &local);
        let local_again = match &local_update {
            Some(blob) => contents_as_lines(blob),
            None => local.clone(),
        };
        let again = reconciled(&fed_back(&remote, &remote_update), &local_again);
        assert_eq!((None, None), again);
    }
}

#[test]
fn a_working_file_keeps_the_carriage_return_at_the_end_of_a_line() {
    let remote = side(&["a\r"]);
    let local = side(&[]);
    let (local_update, remote_update) =
        append(remote.clone(), local, Vec::new(), Vec::new(), Vec::new());
    assert_eq!((Some(line("a\r\n")), None), (local_update, remote_update));
    let read = contents_as_lines(&line("a\r\n"));
    assert_eq!(side(&["a\r", ""]), read);
    assert_eq!(
        (None, None),
        append(remote, read, Vec::new(), Vec::new(), Vec::new())
    );
}
