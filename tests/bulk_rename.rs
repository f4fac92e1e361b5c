use basic_bulk_renamer::error::RenameError;
use basic_bulk_renamer::path::candidate_path;
use basic_bulk_renamer::rename::{BulkRename, EntryKind, FsAction, FsEvent, RenameOverwriteMode, Step};
use basic_bulk_renamer::resolve::TargetResolver;
use std::collections::BTreeMap;
use std::io;

#[derive(Clone, Debug, PartialEq)]
enum Node {
    File(String),
    Dir,
}

/// A filesystem in memory: entries by absolute path.
struct MemFs {
    nodes: BTreeMap<String, Node>,
    next_temp: usize,
    read_only_dirs: Vec<String>,
    failing_sources: Vec<String>,
}

impl MemFs {
    fn new() -> Self {
        MemFs { nodes: BTreeMap::new(), next_temp: 0, read_only_dirs: Vec::new(), failing_sources: Vec::new() }
    }

    fn write(&mut self, path: &str, content: &str) {
        self.nodes.insert(path.to_string(), Node::File(content.to_string()));
    }

    fn mkdir(&mut self, path: &str) {
        self.nodes.insert(path.to_string(), Node::Dir);
    }

    fn read(&self, path: &str) -> Option<String> {
        match self.nodes.get(path) {
            Some(Node::File(c)) => Some(c.clone()),
            _ => None,
        }
    }

    fn contains(&self, path: &str) -> bool {
        self.nodes.contains_key(path)
    }

    fn kind(&self, path: &str) -> EntryKind {
        match self.nodes.get(path) {
            None => EntryKind::Absent,
            Some(Node::File(_)) => EntryKind::File,
            Some(Node::Dir) => EntryKind::Directory,
        }
    }

    fn tree(&self, path: &str) -> Vec<String> {
        let below = format!("{}/", path);
        self.nodes.keys().filter(|k| *k == path || k.starts_with(&below)).cloned().collect()
    }

    fn remove_tree(&mut self, path: &str) {
        for k in self.tree(path) {
            self.nodes.remove(&k);
        }
    }

    fn move_tree(&mut self, from: &str, to: &str) {
        for k in self.tree(from) {
            let node = self.nodes.remove(&k).unwrap();
            self.nodes.insert(format!("{}{}", to, &k[from.len()..]), node);
        }
    }

    fn fail(kind: io::ErrorKind) -> FsEvent {
        FsEvent::Failed(io::Error::new(kind, "refused"))
    }

    fn perform(&mut self, action: &FsAction) -> FsEvent {
        match action {
            FsAction::Probe(p) => FsEvent::Probed(self.kind(p)),
            FsAction::CreateTemp { dir, prefix } => {
                if self.read_only_dirs.contains(dir) {
                    return Self::fail(io::ErrorKind::PermissionDenied);
                }
                loop {
                    let name = format!("{}/{}.tmp{}", dir, prefix, self.next_temp);
                    self.next_temp += 1;
                    if !self.contains(&name) {
                        self.write(&name, "");
                        return FsEvent::TempCreated(name);
                    }
                }
            }
            FsAction::RemoveFile(p) => match self.nodes.get(p) {
                Some(Node::File(_)) => {
                    self.nodes.remove(p);
                    FsEvent::Completed
                }
                _ => Self::fail(io::ErrorKind::NotFound),
            },
            FsAction::RemoveDirAll(p) => match self.nodes.get(p) {
                Some(Node::Dir) => {
                    self.remove_tree(p);
                    FsEvent::Completed
                }
                _ => Self::fail(io::ErrorKind::NotFound),
            },
            FsAction::Rename { from, to } => {
                if self.failing_sources.contains(from) || !self.contains(from) {
                    return Self::fail(io::ErrorKind::NotFound);
                }
                if self.contains(to) {
                    if self.kind(to) == EntryKind::File && self.kind(from) == EntryKind::File {
                        self.nodes.remove(to);
                    } else {
                        return Self::fail(io::ErrorKind::AlreadyExists);
                    }
                }
                self.move_tree(from, to);
                FsEvent::Completed
            }
        }
    }
}

/// Runs `op` under `mode` on `fs` until it finishes.
fn execute(op: &mut BulkRename, mode: RenameOverwriteMode, fs: &mut MemFs) -> Result<(), RenameError> {
    let mut step = op.begin(mode);
    loop {
        match step {
            Step::Perform(action) => {
                let event = fs.perform(&action);
                step = op.advance(event);
            }
            Step::Finished(result) => return result,
        }
    }
}

/// The free path that `target` resolves to on `fs`.
fn fix_target_file_path(fs: &MemFs, target: &str) -> Result<String, RenameError> {
    let mut resolver = TargetResolver::new(target.to_string());
    loop {
        let taken = fs.contains(resolver.candidate());
        if let Some(result) = resolver.advance(taken) {
            return result;
        }
    }
}

fn pair(source: &str, target: &str) -> (String, String) {
    (source.to_string(), target.to_string())
}

fn ledger(op: &BulkRename) -> Option<Vec<(String, String)>> {
    op.undo_pairs().cloned()
}

fn check_fix_target_file_path() {
    let mut fs = MemFs::new();
    fs.mkdir("/tmp/t");
    let a_txt = "/tmp/t/a.txt";
    for i in 0..3 {
        fs.write(&format!("/tmp/t/{}a.txt", "_".repeat(i)), "a");
        assert_eq!(
            fix_target_file_path(&fs, a_txt).unwrap(),
            format!("/tmp/t/{}a.txt", "_".repeat(i + 1))
        );
    }
}

#[test]
fn lib_test_fix_target_file_path() {
    check_fix_target_file_path();
}

#[test]
fn mod_test_fix_target_file_path() {
    check_fix_target_file_path();
}

fn check_conflicting_files() {
    for &mode in &[RenameOverwriteMode::ChangeFileName, RenameOverwriteMode::Overwrite, RenameOverwriteMode::Error] {
        let mut fs = MemFs::new();
        fs.mkdir("/tmp/t");
        let file1_path = "/tmp/t/1.txt";
        fs.write(file1_path, "1");
        let file2_path = "/tmp/t/2.txt";
        fs.write(file2_path, "2");

        let mut rename = BulkRename::new(vec![pair(file1_path, file2_path)]);
        let result = execute(&mut rename, mode, &mut fs);
        let undo_pairs = ledger(&rename);

        match mode {
            RenameOverwriteMode::ChangeFileName => {
                let new_file_path = "/tmp/t/_2.txt";
                assert_eq!(fs.read(new_file_path).unwrap(), "1");
                assert_eq!(fs.read(file2_path).unwrap(), "2");
                assert_eq!(undo_pairs, Some(vec![pair(new_file_path, file1_path)]));
            }
            RenameOverwriteMode::Overwrite => {
                assert_eq!(fs.read(file2_path).unwrap(), "1");
                assert_eq!(undo_pairs, None);
            }
            RenameOverwriteMode::Error => {
                assert!(matches!(result, Err(RenameError::TargetFileAlreadyExists(_))));
                assert!(matches!(&undo_pairs, Some(_)));
                assert_eq!(undo_pairs.as_ref().unwrap()[0].1, file1_path);
            }
        }
    }
}

fn check_conflicting_directories() {
    for &mode in &[RenameOverwriteMode::ChangeFileName, RenameOverwriteMode::Overwrite, RenameOverwriteMode::Error] {
        let mut fs = MemFs::new();
        fs.mkdir("/tmp/t");
        let dir1_path = "/tmp/t/1.d";
        fs.mkdir(dir1_path);
        fs.write("/tmp/t/1.d/1.txt", "1");
        let dir2_path = "/tmp/t/2.d";
        fs.mkdir(dir2_path);
        let file2_path = "/tmp/t/2.d/2.txt";
        fs.write(file2_path, "2");

        let mut rename = BulkRename::new(vec![pair(dir1_path, dir2_path)]);
        let result = execute(&mut rename, mode, &mut fs);
        let undo_pairs = ledger(&rename);

        match mode {
            RenameOverwriteMode::ChangeFileName => {
                let new_dir_path = "/tmp/t/_2.d";
                assert_eq!(fs.read("/tmp/t/_2.d/1.txt").unwrap(), "1");
                assert_eq!(fs.read(file2_path).unwrap(), "2");
                assert_eq!(undo_pairs, Some(vec![pair(new_dir_path, dir1_path)]));
            }
            RenameOverwriteMode::Overwrite => {
                assert_eq!(fs.read("/tmp/t/2.d/1.txt").unwrap(), "1");
                assert_eq!(undo_pairs, None);
            }
            RenameOverwriteMode::Error => {
                assert!(matches!(result, Err(RenameError::TargetFileAlreadyExists(_))));
                assert!(matches!(&undo_pairs, Some(_)));
                assert_eq!(undo_pairs.as_ref().unwrap()[0].1, dir1_path);
            }
        }
    }
}

#[test]
fn lib_test_execute_when_conflicting() {
    check_conflicting_files();
}

#[test]
fn mod_test_execute_when_conflicting() {
    check_conflicting_files();
    check_conflicting_directories();
}

fn check_across_directories() {
    let mut fs = MemFs::new();
    fs.mkdir("/tmp/a");
    fs.mkdir("/tmp/b");
    let mut undo_pairs = Vec::new();
    let mut pairs = Vec::new();
    for i in 0..20 {
        let source_path = format!("/tmp/a/{}.txt", i);
        let target_path = format!("/tmp/b/foobar_{}.txt", i);
        fs.write(&source_path, &format!("{}", i));
        undo_pairs.push((target_path.clone(), source_path.clone()));
        pairs.push((source_path, target_path));
    }

    let mut rename = BulkRename::new(pairs);
    execute(&mut rename, RenameOverwriteMode::Error, &mut fs).unwrap();

    for i in 0..20 {
        let target_path = format!("/tmp/b/foobar_{}.txt", i);
        assert_eq!(fs.read(&target_path).unwrap(), format!("{}", i));
    }

    assert_eq!(ledger(&rename), Some(undo_pairs));
}

#[test]
fn lib_test_execute_with_across_directories() {
    check_across_directories();
}

#[test]
fn mod_test_execute_with_across_directories() {
    check_across_directories();
}

fn check_renumbering() {
    let mut fs = MemFs::new();
    fs.mkdir("/tmp/t");
    let mut pairs = Vec::new();
    for i in 0..20 {
        let source_path = format!("/tmp/t/{}.txt", i);
        let target_path = format!("/tmp/t/{}.txt", i + 1);
        fs.write(&source_path, &format!("{}", i));
        pairs.push((source_path, target_path));
    }

    let mut rename = BulkRename::new(pairs);
    execute(&mut rename, RenameOverwriteMode::Error, &mut fs).unwrap();

    for i in 0..20 {
        let target_path = format!("/tmp/t/{}.txt", i + 1);
        assert_eq!(fs.read(&target_path).unwrap(), format!("{}", i));
    }

    let mut undo = rename.undo_bulk_rename().unwrap();
    execute(&mut undo, RenameOverwriteMode::Error, &mut fs).unwrap();

    for i in 0..20 {
        let target_path = format!("/tmp/t/{}.txt", i);
        assert_eq!(fs.read(&target_path).unwrap(), format!("{}", i));
    }
}

#[test]
fn lib_test_execute_with_renumbering() {
    check_renumbering();
}

#[test]
fn mod_test_execute_with_renumbering() {
    check_renumbering();
}

#[test]
fn collision_takes_the_first_free_prefix() {
    let mut fs = MemFs::new();
    fs.write("/d/T", "t");
    fs.write("/d/_T", "t1");
    fs.write("/d/__T", "t2");
    assert_eq!(fix_target_file_path(&fs, "/d/T").unwrap(), "/d/___T");
    assert_eq!(fix_target_file_path(&fs, "/d/free").unwrap(), "/d/free");
}

#[test]
fn taken_root_cannot_be_resolved() {
    let mut fs = MemFs::new();
    fs.mkdir("/");
    assert!(matches!(fix_target_file_path(&fs, "/"), Err(RenameError::IllegalOperation)));
}

#[test]
fn candidate_paths_prefix_the_file_name() {
    assert_eq!(candidate_path(&"/d/a.txt".to_string(), 0), Some("/d/a.txt".to_string()));
    assert_eq!(candidate_path(&"/d/a.txt".to_string(), 1), Some("/d/_a.txt".to_string()));
    assert_eq!(candidate_path(&"/d/a.txt".to_string(), 3), Some("/d/___a.txt".to_string()));
    assert_eq!(candidate_path(&"rel/x".to_string(), 2), Some("rel/__x".to_string()));
    assert_eq!(candidate_path(&"/".to_string(), 1), None);
}

#[test]
fn preflight_lists_every_missing_source() {
    let mut fs = MemFs::new();
    let mut pairs = Vec::new();
    for i in 1..=6 {
        let source = format!("/s/{}.txt", i);
        if i != 2 && i != 5 {
            fs.write(&source, "x");
        }
        pairs.push((source, format!("/t/{}.txt", i)));
    }
    let op = BulkRename::new(pairs.clone());
    let exists: Vec<bool> = pairs.iter().map(|(s, _)| fs.contains(s)).collect();
    match op.check_not_found_source_files(&exists) {
        Err(RenameError::SourceFileNotFound(missing)) => {
            assert_eq!(missing, vec![pairs[1].clone(), pairs[4].clone()]);
        }
        other => panic!("unexpected {:?}", other),
    }

    let before = fs.nodes.clone();
    let mut op = BulkRename::new(pairs.clone());
    match execute(&mut op, RenameOverwriteMode::Error, &mut fs) {
        Err(RenameError::SourceFileNotFound(missing)) => {
            assert_eq!(missing, vec![pairs[1].clone(), pairs[4].clone()]);
        }
        other => panic!("unexpected {:?}", other),
    }
    assert_eq!(fs.nodes, before);
}

#[test]
fn preflight_passes_when_all_sources_exist() {
    let op = BulkRename::new(vec![pair("/a", "/b"), pair("/c", "/d")]);
    assert!(op.check_not_found_source_files(&vec![true, true]).is_ok());
}

#[test]
fn independent_pairs_round_trip() {
    let mut fs = MemFs::new();
    let mut pairs = Vec::new();
    for i in 0..5 {
        let source = format!("/w/src{}.bin", i);
        fs.write(&source, &format!("content {}", i));
        pairs.push((source, format!("/w/dst{}.bin", i)));
    }
    fs.write("/w/other", "keep");
    let before = fs.nodes.clone();

    let mut op = BulkRename::new(pairs.clone());
    execute(&mut op, RenameOverwriteMode::Error, &mut fs).unwrap();
    for (i, (source, target)) in pairs.iter().enumerate() {
        assert!(!fs.contains(source));
        assert_eq!(fs.read(target).unwrap(), format!("content {}", i));
    }
    let mut undo = op.undo_bulk_rename().unwrap();
    execute(&mut undo, RenameOverwriteMode::Error, &mut fs).unwrap();
    assert_eq!(fs.nodes, before);
}

#[test]
fn swapping_two_names_works() {
    let mut fs = MemFs::new();
    fs.write("/s/a", "A");
    fs.write("/s/b", "B");
    let mut op = BulkRename::new(vec![pair("/s/a", "/s/b"), pair("/s/b", "/s/a")]);
    execute(&mut op, RenameOverwriteMode::Error, &mut fs).unwrap();
    assert_eq!(fs.read("/s/a").unwrap(), "B");
    assert_eq!(fs.read("/s/b").unwrap(), "A");
    assert_eq!(fs.nodes.len(), 2);
}

#[test]
fn overwrite_of_existing_target_cannot_be_undone() {
    let mut fs = MemFs::new();
    fs.write("/o/new", "new");
    fs.write("/o/old", "old");
    let mut op = BulkRename::new(vec![pair("/o/new", "/o/old")]);
    execute(&mut op, RenameOverwriteMode::Overwrite, &mut fs).unwrap();
    assert_eq!(fs.read("/o/old").unwrap(), "new");
    assert!(!fs.contains("/o/new"));
    assert!(op.undo_bulk_rename().is_none());
    assert!(op.undo_pairs().is_none());
}

#[test]
fn overwrite_of_free_target_can_be_undone() {
    let mut fs = MemFs::new();
    fs.write("/o/new", "new");
    let mut op = BulkRename::new(vec![pair("/o/new", "/o/free")]);
    execute(&mut op, RenameOverwriteMode::Overwrite, &mut fs).unwrap();
    assert_eq!(ledger(&op), Some(vec![pair("/o/free", "/o/new")]));
}

#[test]
fn overwrite_replaces_a_file_by_a_directory() {
    let mut fs = MemFs::new();
    fs.mkdir("/o/dir");
    fs.write("/o/dir/inner", "i");
    fs.write("/o/file", "f");
    let mut op = BulkRename::new(vec![pair("/o/dir", "/o/file")]);
    execute(&mut op, RenameOverwriteMode::Overwrite, &mut fs).unwrap();
    assert_eq!(fs.kind("/o/file"), EntryKind::Directory);
    assert_eq!(fs.read("/o/file/inner").unwrap(), "i");
    assert!(op.undo_bulk_rename().is_none());
}

#[test]
fn error_policy_keeps_an_existing_directory() {
    let mut fs = MemFs::new();
    fs.mkdir("/e/1.d");
    fs.write("/e/1.d/1.txt", "1");
    fs.mkdir("/e/2.d");
    fs.write("/e/2.d/2.txt", "2");
    let mut op = BulkRename::new(vec![pair("/e/1.d", "/e/2.d")]);
    let result = execute(&mut op, RenameOverwriteMode::Error, &mut fs);
    match result {
        Err(RenameError::TargetFileAlreadyExists(p)) => assert_eq!(p, pair("/e/1.d", "/e/2.d")),
        other => panic!("unexpected {:?}", other),
    }
    assert_eq!(fs.read("/e/2.d/2.txt").unwrap(), "2");
    let staged = ledger(&op).unwrap();
    assert_eq!(staged.len(), 1);
    assert_eq!(fs.read(&format!("{}/1.txt", staged[0].0)).unwrap(), "1");

    let mut undo = op.undo_bulk_rename().unwrap();
    execute(&mut undo, RenameOverwriteMode::Error, &mut fs).unwrap();
    assert_eq!(fs.read("/e/1.d/1.txt").unwrap(), "1");
}

#[test]
fn staging_failure_leaves_an_inspectable_ledger() {
    let mut fs = MemFs::new();
    let mut pairs = Vec::new();
    for i in 1..=5 {
        let source = format!("/in/{}.txt", i);
        fs.write(&source, &format!("{}", i));
        let dir = if i == 3 { "/locked" } else { "/out" };
        pairs.push((source, format!("{}/{}.txt", dir, i)));
    }
    fs.read_only_dirs.push("/locked".to_string());

    let mut op = BulkRename::new(pairs.clone());
    match execute(&mut op, RenameOverwriteMode::Error, &mut fs) {
        Err(RenameError::TargetDirectoryNotWritable(p, _)) => assert_eq!(p, pairs[2]),
        other => panic!("unexpected {:?}", other),
    }
    let staged = ledger(&op).unwrap();
    assert_eq!(staged.len(), 2);
    for (i, (temp, source)) in staged.iter().enumerate() {
        assert_eq!(source, &pairs[i].0);
        assert!(temp.starts_with("/out/"));
        assert_eq!(fs.read(temp).unwrap(), format!("{}", i + 1));
        assert!(!fs.contains(source));
    }
    for (source, target) in &pairs[2..] {
        assert!(fs.contains(source));
        assert!(!fs.contains(target));
    }

    let mut undo = op.undo_bulk_rename().unwrap();
    execute(&mut undo, RenameOverwriteMode::Error, &mut fs).unwrap();
    for (i, (source, _)) in pairs.iter().enumerate() {
        assert_eq!(fs.read(source).unwrap(), format!("{}", i + 1));
    }
}

#[test]
fn failed_rename_reports_the_pair() {
    let mut fs = MemFs::new();
    fs.write("/f/a", "a");
    fs.failing_sources.push("/f/a".to_string());
    let mut op = BulkRename::new(vec![pair("/f/a", "/f/b")]);
    match execute(&mut op, RenameOverwriteMode::Error, &mut fs) {
        Err(RenameError::IoError(p, e)) => {
            assert_eq!(p, pair("/f/a", "/f/b"));
            assert_eq!(e.kind(), io::ErrorKind::NotFound);
        }
        other => panic!("unexpected {:?}", other),
    }
    assert_eq!(ledger(&op), Some(vec![]));
}

#[test]
fn an_operation_runs_once() {
    let mut fs = MemFs::new();
    fs.write("/x/a", "a");
    let mut op = BulkRename::new(vec![pair("/x/a", "/x/b")]);
    execute(&mut op, RenameOverwriteMode::Error, &mut fs).unwrap();
    let before = fs.nodes.clone();
    assert!(matches!(execute(&mut op, RenameOverwriteMode::Error, &mut fs), Err(RenameError::Executed)));
    assert!(matches!(op.advance(FsEvent::Completed), Step::Finished(Err(RenameError::Executed))));
    assert_eq!(fs.nodes, before);
}

#[test]
fn a_target_without_directory_is_illegal() {
    let mut fs = MemFs::new();
    fs.write("/x/a", "a");
    let mut op = BulkRename::new(vec![pair("/x/a", "/")]);
    assert!(matches!(execute(&mut op, RenameOverwriteMode::Error, &mut fs), Err(RenameError::IllegalOperation)));
    assert_eq!(fs.read("/x/a").unwrap(), "a");
}

#[test]
fn an_answer_that_does_not_fit_is_illegal() {
    let mut op = BulkRename::new(vec![pair("/x/a", "/x/b")]);
    assert!(matches!(op.advance(FsEvent::Completed), Step::Finished(Err(RenameError::IllegalOperation))));
    match op.begin(RenameOverwriteMode::Error) {
        Step::Perform(FsAction::Probe(p)) => assert_eq!(p, "/x/a"),
        other => panic!("unexpected {:?}", other),
    }
    assert!(matches!(op.advance(FsEvent::Completed), Step::Finished(Err(RenameError::IllegalOperation))));
}

#[test]
fn staging_asks_for_a_temporary_file_beside_the_target() {
    let mut op = BulkRename::new(vec![pair("/src/x.txt", "/dst/sub/y.txt")]);
    let first = op.begin(RenameOverwriteMode::Error);
    assert!(matches!(first, Step::Perform(FsAction::Probe(_))));
    match op.advance(FsEvent::Probed(EntryKind::File)) {
        Step::Perform(FsAction::CreateTemp { dir, prefix }) => {
            assert_eq!(dir, "/dst/sub");
            assert_eq!(prefix, "y.txt");
        }
        other => panic!("unexpected {:?}", other),
    }
    match op.advance(FsEvent::TempCreated("/dst/sub/y.txt.tmp1".to_string())) {
        Step::Perform(FsAction::Rename { from, to }) => {
            assert_eq!(from, "/src/x.txt");
            assert_eq!(to, "/dst/sub/y.txt.tmp1");
        }
        other => panic!("unexpected {:?}", other),
    }
}

#[test]
fn a_directory_source_clears_its_placeholder_first() {
    let mut op = BulkRename::new(vec![pair("/src/d", "/dst/e")]);
    op.begin(RenameOverwriteMode::Error);
    op.advance(FsEvent::Probed(EntryKind::Directory));
    match op.advance(FsEvent::TempCreated("/dst/e.tmp".to_string())) {
        Step::Perform(FsAction::RemoveFile(p)) => assert_eq!(p, "/dst/e.tmp"),
        other => panic!("unexpected {:?}", other),
    }
}

#[test]
fn undo_before_execution_is_empty() {
    let op = BulkRename::new(vec![pair("/a", "/b")]);
    let undo = op.undo_bulk_rename().unwrap();
    assert!(undo.pairs.is_empty());
    assert_eq!(ledger(&op), Some(vec![]));
}

#[test]
fn empty_operation_succeeds() {
    let mut fs = MemFs::new();
    let mut op = BulkRename::new(vec![]);
    assert!(execute(&mut op, RenameOverwriteMode::Error, &mut fs).is_ok());
    assert_eq!(ledger(&op), Some(vec![]));
}

#[test]
fn change_file_name_skips_every_taken_candidate() {
    let mut fs = MemFs::new();
    fs.write("/c/a", "new");
    fs.write("/c/b", "b0");
    fs.write("/c/_b", "b1");
    let mut op = BulkRename::new(vec![pair("/c/a", "/c/b")]);
    execute(&mut op, RenameOverwriteMode::ChangeFileName, &mut fs).unwrap();
    assert_eq!(fs.read("/c/__b").unwrap(), "new");
    assert_eq!(fs.read("/c/b").unwrap(), "b0");
    assert_eq!(fs.read("/c/_b").unwrap(), "b1");
    assert_eq!(ledger(&op), Some(vec![pair("/c/__b", "/c/a")]));
}

#[test]
fn cross_directory_moves_are_undone() {
    let mut fs = MemFs::new();
    let mut pairs = Vec::new();
    for i in 0..4 {
        let source = format!("/A/{}.txt", i);
        fs.write(&source, &format!("bytes {}", i));
        pairs.push((source, format!("/B/{}.txt", i)));
    }
    let before = fs.nodes.clone();
    let mut op = BulkRename::new(pairs.clone());
    execute(&mut op, RenameOverwriteMode::Error, &mut fs).unwrap();
    for (i, (source, target)) in pairs.iter().enumerate() {
        assert!(!fs.contains(source));
        assert_eq!(fs.read(target).unwrap(), format!("bytes {}", i));
    }
    let mut undo = op.undo_bulk_rename().unwrap();
    assert_eq!(undo.pairs, pairs.iter().map(|(s, t)| (t.clone(), s.clone())).collect::<Vec<_>>());
    execute(&mut undo, RenameOverwriteMode::Error, &mut fs).unwrap();
    assert_eq!(fs.nodes, before);
}

#[test]
fn a_temporary_file_that_cannot_be_kept_is_illegal() {
    let mut op = BulkRename::new(vec![pair("/k/a", "/k/b")]);
    op.begin(RenameOverwriteMode::Error);
    op.advance(FsEvent::Probed(EntryKind::File));
    assert!(matches!(op.advance(FsEvent::TempNotKept), Step::Finished(Err(RenameError::IllegalOperation))));
    assert_eq!(ledger(&op), Some(vec![]));
}

#[test]
fn overwrite_removes_a_directory_target_first() {
    let mut fs = MemFs::new();
    fs.write("/o/file", "f");
    fs.mkdir("/o/dir");
    fs.write("/o/dir/inner", "i");
    let mut op = BulkRename::new(vec![pair("/o/file", "/o/dir")]);
    execute(&mut op, RenameOverwriteMode::Overwrite, &mut fs).unwrap();
    assert_eq!(fs.read("/o/dir").unwrap(), "f");
    assert!(!fs.contains("/o/dir/inner"));
    assert!(!fs.contains("/o/file"));
    assert!(op.undo_pairs().is_none());
}

#[test]
fn change_file_name_may_land_back_on_the_source_path() {
    let mut fs = MemFs::new();
    fs.write("/c/_b", "mine");
    fs.write("/c/b", "theirs");
    let mut op = BulkRename::new(vec![pair("/c/_b", "/c/b")]);
    execute(&mut op, RenameOverwriteMode::ChangeFileName, &mut fs).unwrap();
    assert_eq!(fs.read("/c/_b").unwrap(), "mine");
    assert_eq!(fs.read("/c/b").unwrap(), "theirs");
    assert_eq!(ledger(&op), Some(vec![pair("/c/_b", "/c/_b")]));
}
