use la_tools::applets::{select_applet, try_dispatch, Applet, Dispatch};
use la_tools::bootstrap::{index_name, index_name_from_ini, manifest_url, BootstrapError};
use la_tools::git_index::parse;
use la_tools::plan::{
    choose_output_dir, content_lengths, dir_name, directories, file_action, final_files,
    first_failed, get_fallback_output_dir, needs_download, run_exit_code, todo_files,
    total_size, FileAction, FinalFile, PermitGauge, EXIT_FILE_FAILED, EXIT_OK,
};

fn file(name: &str, size: u64) -> FinalFile {
    FinalFile { hash: vec![1; 20], name: name.to_string(), size }
}

fn index_with_names(names: &[&[u8]]) -> Vec<u8> {
    let mut b = b"DIRC".to_vec();
    b.extend_from_slice(&2u32.to_be_bytes());
    b.extend_from_slice(&(names.len() as u32).to_be_bytes());
    for (i, name) in names.iter().enumerate() {
        b.extend_from_slice(&[0u8; 36]);
        b.extend_from_slice(&(1000 + i as u32).to_be_bytes());
        let hash: Vec<u8> = (1..=20).collect();
        b.extend_from_slice(&hash);
        b.extend_from_slice(&[0u8; 2]);
        b.extend_from_slice(name);
        let padded = (62 + name.len() + 1 + 7) / 8 * 8;
        b.extend(std::iter::repeat(0u8).take(padded - 62 - name.len()));
    }
    b
}

#[test]
fn files_from_index() {
    let b = index_with_names(&[b"a/b.dat", b"c.txt"]);
    let v = parse(&b).unwrap();
    let files = final_files(&v).ok().unwrap();
    assert_eq!(files.len(), 2);
    assert_eq!(files[0].name, "a/b.dat");
    assert_eq!(files[0].size, 1000);
    assert_eq!(files[0].hash, (1..=20).collect::<Vec<u8>>());
    assert_eq!(files[1].name, "c.txt");
    assert_eq!(files[1].size, 1001);
}

#[test]
fn non_utf8_names_are_counted() {
    let b = index_with_names(&[b"ok", &[0xff, 0xfe], b"fine", &[0xc3]]);
    let v = parse(&b).unwrap();
    assert_eq!(final_files(&v).err(), Some(2));
}

#[test]
fn shared_directory_listed_once() {
    let files = vec![file("x/y.dat", 1), file("x/z.dat", 2), file("top.dat", 3), file("p/q/r", 4)];
    assert_eq!(directories(&files), vec!["x".to_string(), "p/q".to_string()]);
    assert_eq!(dir_name("a/b/c.dat"), Some("a/b".to_string()));
    assert_eq!(dir_name("c.dat"), None);
}

#[test]
fn complete_files_are_skipped() {
    let files = vec![file("a/b.dat", 1000), file("c", 5), file("d", 7)];
    let existing = vec![Some(1000), Some(4), None];
    assert_eq!(todo_files(&files, &existing), vec![1, 2]);
    assert!(!needs_download(Some(1000), 1000));
    assert!(needs_download(Some(999), 1000));
    assert!(needs_download(None, 0));
}

#[test]
fn second_run_fetches_nothing() {
    let files = vec![file("a/b.dat", 1000), file("c", 5)];
    let existing: Vec<Option<u64>> = files.iter().map(|f| Some(f.size)).collect();
    assert!(todo_files(&files, &existing).is_empty());
}

#[test]
fn missing_content_length_stops_the_run() {
    assert_eq!(content_lengths(&vec![Some(10), None, Some(3), None]), Err(1));
    assert_eq!(content_lengths(&vec![Some(10), Some(3)]), Ok(vec![10, 3]));
    assert_eq!(content_lengths(&vec![]), Ok(vec![]));
}

#[test]
fn total_size_does_not_overflow() {
    assert_eq!(total_size(&vec![1, 2, 3]), 6);
    assert_eq!(total_size(&vec![u64::MAX, u64::MAX]), 2 * (u64::MAX as u128));
    assert_eq!(total_size(&vec![]), 0);
}

#[test]
fn decode_waits_for_every_chunk() {
    assert_eq!(file_action(2, &vec![]), FileAction::AwaitChunk(0));
    assert_eq!(file_action(2, &vec![true]), FileAction::AwaitChunk(1));
    assert_eq!(file_action(2, &vec![true, true]), FileAction::Decode);
    assert_eq!(file_action(3, &vec![true, false]), FileAction::Fail(1));
}

#[test]
fn run_exit_code_reflects_failures() {
    assert_eq!(run_exit_code(&vec![true, true]), EXIT_OK);
    assert_eq!(run_exit_code(&vec![true, false, false]), EXIT_FILE_FAILED);
    assert_eq!(run_exit_code(&vec![]), EXIT_OK);
    assert_eq!(first_failed(&vec![true, false, false]), Some(1));
}

#[test]
fn permits_never_exceed_the_cap() {
    let mut g = PermitGauge::new(2);
    assert!(g.try_acquire());
    assert!(g.try_acquire());
    assert!(!g.try_acquire());
    assert_eq!(g.held(), 2);
    g.release();
    assert!(g.try_acquire());
    assert_eq!(g.held(), g.cap());
    let mut none = PermitGauge::new(0);
    assert!(!none.try_acquire());
}

#[test]
fn output_dir_choice() {
    assert_eq!(choose_output_dir("given".into(), "fb".into()), Some("given".to_string()));
    assert_eq!(choose_output_dir("".into(), "fb".into()), Some("fb".to_string()));
    assert_eq!(choose_output_dir("".into(), "".into()), None);
    assert_eq!(get_fallback_output_dir(None), "");
    assert_eq!(get_fallback_output_dir(Some("C:\\LA".into())), "C:\\LA");
}

#[test]
fn index_name_from_settings() {
    assert_eq!(
        index_name_from_ini("[VERSION]\nINDEX=la_123.idx\n"),
        Ok("la_123.idx".to_string())
    );
    assert_eq!(index_name_from_ini("[VERSION]\nINDEX=\n"), Err(BootstrapError::EmptyIndex));
    assert_eq!(index_name_from_ini("[OTHER]\nINDEX=x\n"), Err(BootstrapError::MissingIndex));
    assert_eq!(index_name(None), Err(BootstrapError::MissingIndex));
    assert_eq!(index_name(Some("n".into())), Ok("n".to_string()));
    assert_eq!(manifest_url("la_123.idx"), "http://la.cdn.gameon.jp/la/patch/la_123.idx");
}

#[test]
fn applet_selection() {
    let args = |v: &[&str]| v.iter().map(|s| s.to_string()).collect::<Vec<String>>();
    assert_eq!(select_applet(&args(&[])), Dispatch::Usage);
    assert_eq!(
        select_applet(&args(&["make-git-object", "f"])),
        Dispatch::Run { applet: Applet::MakeGitObject, skip: 0 }
    );
    assert_eq!(select_applet(&args(&["multi"])), Dispatch::Usage);
    assert_eq!(
        select_applet(&args(&["multi", "extract-git-object"])),
        Dispatch::Run { applet: Applet::ExtractGitObject, skip: 1 }
    );
    assert_eq!(select_applet(&args(&["multi", "patch-git-index"])), Dispatch::Nothing);
    assert_eq!(try_dispatch(&"hash-git-object".to_string()), Some(Applet::HashGitObject));
}

#[test]
fn unreadable_settings_are_reported() {
    assert_eq!(index_name_from_ini("[VERSION\nINDEX=x\n"), Err(BootstrapError::UnreadableIni));
}

#[test]
fn decode_after_more_results_than_chunks() {
    assert_eq!(file_action(1, &vec![true, true]), FileAction::Decode);
}
