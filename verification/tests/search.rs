use duplicate_finder::contents::{self, FullHash, PARTIAL_CHUNK};
use duplicate_finder::intake::{self, Batch};
use duplicate_finder::model::{Model, Status};
use duplicate_finder::rules::{self, Exclusions, Rule, RuleSpec};
use duplicate_finder::scanner::{self, Job, Msg, Scan, ScanEvent, ScanProgress};
use duplicate_finder::session::{self, LivePreview, RuleAction};
use duplicate_finder::{paths, views};

/// A disk in memory: the path and the content of each file.
type Disk = Vec<(String, Vec<u8>)>;

fn file(disk: &mut Disk, path: &str, content: &[u8]) {
    disk.push((format!("/disk/{path}"), content.to_vec()));
}

fn texts(list: &[&str]) -> Vec<String> {
    list.iter().map(|s| s.to_string()).collect()
}

fn rule(pattern: &str, continuous: bool) -> Rule {
    Rule::new(RuleSpec { pattern: pattern.to_string(), continuous }).unwrap()
}

fn read(disk: &Disk, path: &str) -> Vec<u8> {
    disk.iter().find(|f| f.0 == path).unwrap().1.clone()
}

/// Reads what a job asks for, as a reader of real files would.
fn perform(disk: &Disk, job: Job) -> Msg {
    let outcome = match &job {
        Job::Partial(_, path, size) => {
            let bytes = read(disk, path);
            let n = PARTIAL_CHUNK as usize;
            let start = contents::tail_start(*size) as usize;
            (contents::partial_hash(&bytes[..n], &bytes[start..start + n]), 2 * PARTIAL_CHUNK)
        }
        Job::Full(_, path) => {
            let mut hash = FullHash::new();
            for piece in read(disk, path).chunks(contents::READ_CHUNK) {
                hash.update(piece);
            }
            hash.finish()
        }
    };
    scanner::job_message(job, Ok(outcome))
}

/// Goes through the folders, and gives all that the search tells.
fn search(disk: &Disk, given: &[String], exclusions: &Exclusions) -> Vec<ScanEvent> {
    let mut events = Vec::new();
    let roots = match scanner::plan(given) {
        Ok(roots) => roots,
        Err(events) => return events,
    };
    let mut scan = Scan::new();
    let mut jobs: Vec<Job> = Vec::new();
    let smallest = scanner::smallest_size(0);
    let mut messages: Vec<Msg> = Vec::new();
    for root in &roots {
        for (path, content) in disk {
            if !paths::path_within(path, root) {
                continue;
            }
            let folders = path[root.len()..].matches('/').count();
            let hidden = (1..folders).any(|depth| {
                let end = path[root.len() + 1..].match_indices('/').nth(depth - 1).unwrap().0 + root.len() + 1;
                scanner::entry_excluded(exclusions, true, depth, &path[..end])
            });
            if hidden || scanner::entry_excluded(exclusions, false, folders, path) {
                continue;
            }
            if scanner::size_counts(content.len() as u64, smallest) {
                messages.push(Msg::Found(path.clone(), content.len() as u64, None));
            }
        }
    }
    messages.push(Msg::WalkDone);
    for msg in messages {
        assert!(scan.accepts(&msg));
        let reaction = scan.handle(msg);
        jobs.extend(reaction.jobs);
        events.extend(reaction.events);
    }
    while let Some(job) = jobs.pop() {
        assert!(!scan.is_over());
        let msg = perform(disk, job);
        assert!(scan.accepts(&msg));
        let reaction = scan.handle(msg);
        jobs.extend(reaction.jobs);
        events.extend(reaction.events);
    }
    assert!(scan.is_over());
    events.extend(scan.finish(false));
    events
}

/// Searches, and fills the results as the rules that apply by themselves have it.
fn search_into_model(disk: &Disk, given: &[String], exclusions: &Exclusions, rules: &[Rule]) -> Model {
    let mut model = Model::default();
    let mut progress = ScanProgress::default();
    let mut errors = Vec::new();
    for event in search(disk, given, exclusions) {
        assert!(intake::can_take(&event));
        let mut batch = Batch::new();
        batch.take(&mut model, &mut progress, event);
        if let Some(cancelled) = batch.finished {
            assert!(!cancelled);
        }
        batch.settle(&mut model, exclusions, rules, &mut errors);
    }
    assert!(errors.is_empty());
    refresh(&mut model);
    model
}

fn refresh(model: &mut Model) {
    assert!(!model.dirty || model.can_refresh());
    model.refresh();
}

fn all(model: &Model) -> Vec<usize> {
    (0..model.files.len()).collect()
}

fn id_of(model: &Model, suffix: &str) -> usize {
    (0..model.files.len()).find(|&f| model.files[f].path.ends_with(suffix)).unwrap()
}

#[test]
fn detects_only_binary_identical_files() {
    let big: Vec<u8> = (0..500_000u32).map(|i| (i % 251) as u8).collect();
    let mut big_variant = big.clone();
    big_variant[250_000] ^= 1;
    let mut disk = Disk::new();
    file(&mut disk, "a/small.txt", b"bonjour");
    file(&mut disk, "b/small copy.txt", b"bonjour");
    file(&mut disk, "b/other.txt", b"bonsoir");
    file(&mut disk, "a/big.bin", &big);
    file(&mut disk, "b/big.bin", &big);
    file(&mut disk, "c/big.bin", &big);
    file(&mut disk, "c/big_variant.bin", &big_variant);
    file(&mut disk, "c/unique.dat", b"unique content here");

    // The folder `a` is given too: what it holds does not count twice.
    let model = search_into_model(&disk, &texts(&["/disk", "/disk/a"]), &Exclusions::default(), &[]);
    assert_eq!(model.visible_groups, 2);
    assert_eq!(model.totals.total, 5);
    let small = id_of(&model, "a/small.txt");
    let small_copy = id_of(&model, "b/small copy.txt");
    assert_eq!(model.files[small].group, model.files[small_copy].group);
    let big_group = model.files[id_of(&model, "c/big.bin")].group;
    assert_eq!(model.groups[big_group].files.len(), 3);
    assert_eq!(model.wasted_bytes, 7 + 2 * 500_000);
}

#[test]
fn statuses_and_folder_marking() {
    let mut disk = Disk::new();
    file(&mut disk, "keep/x.txt", b"xxxx");
    file(&mut disk, "dup/x.txt", b"xxxx");
    file(&mut disk, "dup/sub/x.txt", b"xxxx");
    file(&mut disk, "keep/y.txt", b"yyyyy");
    file(&mut disk, "dup/y.txt", b"yyyyy");
    let mut model = search_into_model(&disk, &texts(&["/disk"]), &Exclusions::default(), &[]);

    let dup_node = model.files[id_of(&model, "dup/x.txt")].node;
    model.set_marked_subtree(dup_node, true);
    refresh(&mut model);
    assert_eq!(model.status(id_of(&model, "dup/x.txt")), Status::Delete);
    assert_eq!(model.status(id_of(&model, "dup/sub/x.txt")), Status::Delete);
    assert_eq!(model.status(id_of(&model, "keep/x.txt")), Status::Keep);
    assert_eq!(model.node_status(dup_node), Status::Delete);
    assert_eq!(model.node_status(model.files[id_of(&model, "keep/x.txt")].node), Status::Keep);
    assert_eq!(model.deletable_files().len(), 3);

    // Marking `keep` too leaves no copy: nothing can be deleted.
    let keep_node = model.files[id_of(&model, "keep/x.txt")].node;
    model.set_marked_subtree(keep_node, true);
    refresh(&mut model);
    assert_eq!(model.status(id_of(&model, "keep/x.txt")), Status::Conflict);
    assert!(model.deletable_files().is_empty());
    assert_eq!(model.totals.conflict, 5);
    assert_eq!(views::deletable_count(&model.totals), 0);

    // Once a file is gone, its group of two is no longer shown.
    model.set_marked_subtree(keep_node, false);
    let y = id_of(&model, "dup/y.txt");
    model.mark_removed(y);
    refresh(&mut model);
    assert!(!model.is_visible(id_of(&model, "keep/y.txt")));
    assert_eq!(model.visible_groups, 1);
}

#[test]
fn rules_never_mark_last_copy() {
    let mut disk = Disk::new();
    file(&mut disk, "photos/img.jpg", b"jpegdata");
    file(&mut disk, "backup/img.jpg", b"jpegdata");
    file(&mut disk, "backup/old/img.jpg", b"jpegdata");
    file(&mut disk, "backup/doc.txt", b"document");
    file(&mut disk, "backup/doc (1).txt", b"document");

    let continuous = rule("*/backup/*", true);
    let rules = [continuous];
    let mut model = search_into_model(&disk, &texts(&["/disk"]), &Exclusions::default(), &rules);
    assert_eq!(model.status(id_of(&model, "photos/img.jpg")), Status::Keep);
    assert_eq!(model.status(id_of(&model, "backup/img.jpg")), Status::Delete);
    assert_eq!(model.status(id_of(&model, "backup/old/img.jpg")), Status::Delete);
    let docs = [id_of(&model, "backup/doc.txt"), id_of(&model, "backup/doc (1).txt")];
    assert_eq!(docs.iter().filter(|&&d| model.files[d].marked).count(), 1);
    assert!(model.deletable_files().iter().all(|&f| model.status(f) == Status::Delete));

    let unit = rule("*(1).txt", false);
    assert_eq!(rules::count_matches(&unit, &model), 1);
    for d in docs {
        model.set_marked(d, false);
    }
    let ids = all(&model);
    let r = rules::apply(&unit, &mut model, &ids);
    assert_eq!(r.marked, 1);
    assert_eq!(rules::unapply(&unit, &mut model), 1);
    let r = rules::apply(&unit, &mut model, &ids);
    assert_eq!(r.marked, 1);
    refresh(&mut model);
    assert_eq!(model.status(id_of(&model, "backup/doc.txt")), Status::Keep);
}

#[test]
fn audio_files_compared_as_whole_files() {
    let cover: Vec<u8> = (0..200_000u32).map(|i| (i * 7 % 256) as u8).collect();
    let track = |audio: u8| {
        let mut data = b"ID3\x04\x00\x00\x00\x00\x00\x00APIC".to_vec();
        data.extend_from_slice(&cover);
        data.extend(std::iter::repeat_n(audio, 300_000));
        data
    };
    let mut disk = Disk::new();
    file(&mut disk, "album/01.mp3", &track(1));
    file(&mut disk, "album/02.mp3", &track(2));
    file(&mut disk, "album/cover.jpg", &cover);
    file(&mut disk, "album/03.flac", &track(3));
    file(&mut disk, "copie/03.flac", &track(3));
    let model = search_into_model(&disk, &texts(&["/disk"]), &Exclusions::default(), &[]);
    assert_eq!(model.visible_groups, 1, "seuls les deux flac identiques sont des doublons");
    assert!(model.files.iter().all(|f| paths::path_extension(&f.path).unwrap() == "flac"));
}

#[test]
fn exclusions_during_scan_and_on_results() {
    let mut disk = Disk::new();
    for sub in ["music/a", "music/b", "proj/.git/objects", "proj/src", "cache/x"] {
        file(&mut disk, &format!("{sub}/AlbumArt_{{123}}_Large.jpg"), b"art");
        file(&mut disk, &format!("{sub}/data.bin"), b"payload");
    }
    let given = texts(&["/disk"]);
    let every = search_into_model(&disk, &given, &Exclusions::default(), &[]);
    assert_eq!(every.totals.total, 10);

    let excl = Exclusions::new(&texts(&["*/AlbumArt*.jpg", "*/.git", "*/cache/*"])).unwrap();
    let model = search_into_model(&disk, &given, &excl, &[]);
    assert_eq!(model.totals.total, 3, "seuls music/a, music/b et proj/src/data.bin restent");
    assert!(model.files.iter().all(|f| !f.path.contains(".git")));

    let mut model = every;
    let excl = Exclusions::new(&texts(&["*/proj"])).unwrap();
    let count = rules::count_exclusions(&excl, &model);
    assert_eq!((count.files, count.folders), (4, 2));
    model.apply_exclusions(&excl);
    refresh(&mut model);
    assert_eq!(model.totals.total, 6);
    model.apply_exclusions(&Exclusions::default());
    refresh(&mut model);
    assert_eq!(model.totals.total, 10);
}

#[test]
fn live_rule_count() {
    let mut disk = Disk::new();
    file(&mut disk, "keep/a.txt", b"aaaa");
    file(&mut disk, "bak/a.txt", b"aaaa");
    file(&mut disk, "bak/b.txt", b"bbbbb");
    file(&mut disk, "bak/old/b.txt", b"bbbbb");
    let mut model = search_into_model(&disk, &texts(&["/disk"]), &Exclusions::default(), &[]);
    let rule = rule("*/bak/*", false);
    let c = rules::count_rule(&rule, &model);
    assert_eq!((c.files, c.folders, c.markable), (3, 2, 2));
    // What was said to be marked is what is marked.
    let ids = all(&model);
    let r = rules::apply(&rule, &mut model, &ids);
    assert_eq!((r.marked, r.protected), (2, 1));
}

#[test]
fn headless_frames() {
    let mut disk = Disk::new();
    for sub in ["a", "b/c", "b/d"] {
        file(&mut disk, &format!("{sub}/note.txt"), b"hello\nworld");
        file(&mut disk, &format!("{sub}/data.bin"), &[0u8, 1, 2, 3, 255, 0, 7]);
        file(&mut disk, &format!("{sub}/pic.png"), b"not really a png");
    }
    let rules = vec![rule("*/b/*", true)];
    let mut model = search_into_model(&disk, &texts(&["/disk"]), &Exclusions::default(), &rules);
    assert_eq!(model.visible_groups, 3);
    assert_eq!(model.totals.keep, 3);
    assert_eq!(model.totals.delete, 6);

    let mut rule_preview = LivePreview::default();
    let mut exclusion_preview = LivePreview::default();
    rule_preview.update("*/b/*", model.generation, |p| session::rule_preview(p, &model));
    exclusion_preview.update("*/d", model.generation, |p| session::exclusion_preview(p, &model));
    assert_eq!(rule_preview.text, "→ 6 doublon(s) dans 2 dossier(s), 0 seraient marqués");
    assert_eq!(exclusion_preview.text, "→ masquerait 3 doublon(s) dans 1 dossier(s)");
    exclusion_preview.update("[", model.generation, |p| session::exclusion_preview(p, &model));
    assert!(exclusion_preview.is_error);
    let mut settings = session::Settings::for_cores(8);
    session::set_exclusions(texts(&["*/d"]), &mut settings, &mut model);
    refresh(&mut model);
    assert_eq!(model.totals.total, 6);
    assert_eq!(model.totals.keep, 3);
    assert_eq!(settings.exclusions, texts(&["*/d"]));
    let groups = model.marked_groups();
    assert_eq!(groups.len(), 3);
    assert!(groups.iter().all(|g| g.keepers.len() == 1 && g.targets.len() == 1));
}

#[test]
fn a_spared_file_is_marked_when_a_copy_is_found() {
    let rules = [rule("*/bak/*", true)];
    let mut model = Model::default();
    let a = model.add_file(1, 4, "/bak/a".to_string()).unwrap();
    let b = model.add_file(1, 4, "/bak/b".to_string()).unwrap();
    rules::apply_continuous(&rules, &mut model, &[a, b]);
    assert!(model.files[a].marked && !model.files[b].marked);
    assert!(model.files[b].rule_pending);
    // Another file that matches does not help.
    let c = model.add_file(1, 0, "/bak/c".to_string()).unwrap();
    rules::apply_continuous(&rules, &mut model, &[c]);
    assert!(model.files[c].marked && !model.files[b].marked);
    // One that does not match does.
    let d = model.add_file(1, 0, "/keep/d".to_string()).unwrap();
    rules::apply_continuous(&rules, &mut model, &[d]);
    assert!(model.files[b].marked && !model.files[b].rule_pending);
    assert!(!model.files[d].marked);
    // Rules that do not apply by themselves do nothing.
    let e = model.add_file(1, 0, "/bak/e".to_string()).unwrap();
    rules::apply_continuous(&[rule("*/bak/*", false)], &mut model, &[e]);
    assert!(!model.files[e].marked);
}

#[test]
fn the_search_reads_no_more_than_it_has_to() {
    let mut scan = Scan::new();
    let found = |n: u64, path: &str| Msg::Found(path.to_string(), n, None);
    assert!(scan.handle(found(5, "/a")).jobs.is_empty());
    assert!(scan.handle(found(6, "/b")).jobs.is_empty());
    let jobs = scan.handle(found(5, "/c")).jobs;
    assert_eq!(jobs.len(), 2);
    assert!(matches!(&jobs[0], Job::Full(0, p) if p == "/a"));
    assert!(matches!(&jobs[1], Job::Full(2, p) if p == "/c"));
    let jobs = scan.handle(found(5, "/d")).jobs;
    assert_eq!(jobs.len(), 1);
    assert!(matches!(&jobs[0], Job::Full(3, p) if p == "/d"));
    // Large files begin with their two ends.
    let size = 2 * PARTIAL_CHUNK + 1;
    assert!(scan.handle(found(size, "/e")).jobs.is_empty());
    let jobs = scan.handle(found(size, "/f")).jobs;
    assert!(matches!(&jobs[0], Job::Partial(4, p, s) if p == "/e" && *s == size));
    assert!(matches!(&jobs[1], Job::Partial(5, p, s) if p == "/f" && *s == size));
    assert_eq!(scan.pending, 5);
    assert!(scan.handle(Msg::Partial(4, [1; 32])).jobs.is_empty());
    assert!(scan.handle(Msg::Partial(5, [2; 32])).jobs.is_empty());
    assert_eq!(scan.pending, 3);
    let jobs = scan.handle(found(size, "/g")).jobs;
    assert_eq!(jobs.len(), 1);
    let jobs = scan.handle(Msg::Partial(6, [2; 32])).jobs;
    assert!(matches!(&jobs[0], Job::Full(5, p) if p == "/f"));
    assert!(matches!(&jobs[1], Job::Full(6, p) if p == "/g"));
    // The same place in the index is no equality: these differ in the last byte.
    let mut other = [2u8; 32];
    other[31] = 3;
    let jobs = scan.handle(found(size, "/h")).jobs;
    assert_eq!(jobs.len(), 1);
    assert!(scan.handle(Msg::Partial(7, other)).jobs.is_empty());
}

#[test]
fn what_a_search_tells() {
    let mut scan = Scan::new();
    let handle = |scan: &mut Scan, msg: Msg| scan.handle(msg).events;
    for path in ["/a", "/b", "/c", "/d"] {
        assert!(handle(&mut scan, Msg::Found(path.to_string(), 5, None)).is_empty());
    }
    assert!(handle(&mut scan, Msg::Full(0, [7; 32], 5)).is_empty());
    assert!(handle(&mut scan, Msg::Full(3, [8; 32], 5)).is_empty());
    let events = handle(&mut scan, Msg::Full(2, [7; 32], 5));
    assert!(matches!(&events[..], [ScanEvent::NewGroup { key: 0, size: 5, files }] if files == &["/a", "/c"]));
    // A file whose size has changed is left out.
    let events = handle(&mut scan, Msg::Full(1, [7; 32], 4));
    assert!(matches!(&events[..], [ScanEvent::Error(e)] if e == "/b : fichier modifié pendant l'analyse, ignoré"));
    assert!(handle(&mut scan, Msg::Found("/e".to_string(), 5, None)).is_empty());
    let events = handle(&mut scan, Msg::Full(4, [7; 32], 5));
    assert!(matches!(&events[..], [ScanEvent::AddToGroup { key: 0, file }] if file == "/e"));
    assert!(handle(&mut scan, Msg::Found("/f".to_string(), 5, None)).is_empty());
    let events = handle(&mut scan, Msg::Full(5, [8; 32], 5));
    assert!(matches!(&events[..], [ScanEvent::NewGroup { key: 1, size: 5, files }] if files == &["/d", "/f"]));
    let events = handle(&mut scan, Msg::WalkError("oops".to_string()));
    assert!(matches!(&events[..], [ScanEvent::Error(e)] if e == "oops"));
    assert!(handle(&mut scan, Msg::Found("/g".to_string(), 5, None)).is_empty());
    let events = handle(&mut scan, Msg::ReadError(6, "refusé".to_string()));
    assert!(matches!(&events[..], [ScanEvent::Error(e)] if e == "/g : refusé"));
    assert!(!scan.is_over());
    assert!(handle(&mut scan, Msg::WalkDone).is_empty());
    assert!(scan.is_over());
    match scan.report() {
        ScanEvent::Progress(p) => {
            assert_eq!((p.files_seen, p.bytes_seen, p.files_hashed, p.bytes_hashed), (7, 35, 6, 29));
            assert_eq!((p.pending_jobs, p.walking), (0, false));
        }
        _ => panic!(),
    }
    let events = scan.finish(true);
    assert!(matches!(events[1], ScanEvent::Finished { cancelled: true }));
    assert!(!scan.accepts(&Msg::Partial(0, [0; 32])));
    assert!(!scan.accepts(&Msg::ReadError(9, String::new())));
}

#[test]
fn the_same_data_counts_once() {
    let mut scan = Scan::new();
    scan.handle(Msg::Found("/a".to_string(), 5, Some((1, 2))));
    assert!(scan.handle(Msg::Found("/link".to_string(), 5, Some((1, 2)))).jobs.is_empty());
    assert_eq!(scan.paths.len(), 1);
    assert_eq!(scan.handle(Msg::Found("/b".to_string(), 5, Some((2, 1)))).jobs.len(), 2);
    assert_eq!(scan.progress.files_seen, 2);
}

#[test]
fn nothing_to_search() {
    let events = search(&Disk::new(), &[], &Exclusions::default());
    assert!(matches!(&events[0], ScanEvent::Error(e) if e == "Aucun dossier valide à analyser"));
    assert!(matches!(events[1], ScanEvent::Finished { cancelled: false }));
    assert_eq!(events.len(), 2);
}

#[test]
fn jobs_that_fail() {
    let msg = scanner::job_message(Job::Full(3, "/x".to_string()), Err("non".to_string()));
    assert!(matches!(msg, Msg::ReadError(3, e) if e == "non"));
    let msg = scanner::job_message(Job::Partial(2, "/x".to_string(), 9), Ok(([4; 32], 8)));
    assert!(matches!(msg, Msg::Partial(2, h) if h == [4; 32]));
    assert_eq!((scanner::thread_count(0), scanner::thread_count(3)), (1, 3));
    assert_eq!((scanner::smallest_size(0), scanner::smallest_size(10)), (1, 10));
}

#[test]
fn folders_to_search() {
    let roots = |list: &[&str]| duplicate_finder::roots::normalize_roots(&texts(list));
    assert_eq!(roots(&["/b", "/a/c", "/a", "/b", "/ab"]), texts(&["/a", "/ab", "/b"]));
    assert_eq!(roots(&["/a/x", "/a/./x/", "/a/y"]), texts(&["/a/x", "/a/y"]));
    assert_eq!(roots(&["/", "/a"]), texts(&["/"]));
    assert!(roots(&[]).is_empty());
}

#[test]
fn what_comes_of_rules() {
    let mut disk = Disk::new();
    file(&mut disk, "keep/a.txt", b"aaaa");
    file(&mut disk, "bak/a.txt", b"aaaa");
    file(&mut disk, "bak/b.txt", b"bbbbb");
    file(&mut disk, "bak/old/b.txt", b"bbbbb");
    let mut model = search_into_model(&disk, &texts(&["/disk"]), &Exclusions::default(), &[]);
    let mut rules = Vec::new();
    assert!(session::add_rule(&mut rules, "  ", true).is_none());
    assert_eq!(session::add_rule(&mut rules, " */bak/* ", true), Some(Ok(())));
    assert_eq!(
        session::add_rule(&mut rules, "[", true),
        Some(Err("error parsing glob '[': unclosed character class; missing ']'".to_string()))
    );
    assert_eq!(session::add_rule(&mut rules, "*.txt", false), Some(Ok(())));
    assert_eq!(rules.len(), 2);
    assert_eq!(rules[0].spec.pattern, "*/bak/*");
    let said = |rules: &Vec<Rule>, i: usize| rules[i].last_result.clone().unwrap();
    session::act(&mut rules, &mut model, RuleAction::Test(0));
    assert_eq!(said(&rules, 0), "3 doublon(s) correspondant(s)");
    session::act(&mut rules, &mut model, RuleAction::Apply(0));
    assert_eq!(said(&rules, 0), "2 fichier(s) marqué(s), 1 protégé(s) (dernier exemplaire)");
    session::act(&mut rules, &mut model, RuleAction::Unapply(0));
    assert_eq!(said(&rules, 0), "2 fichier(s) démarqué(s)");
    assert!(model.files.iter().all(|f| !f.marked));
    session::act(&mut rules, &mut model, RuleAction::ApplyAll);
    assert_eq!(said(&rules, 0), "2 fichier(s) marqué(s), 1 protégé(s) (dernier exemplaire)");
    assert_eq!(said(&rules, 1), "0 fichier(s) marqué(s), 2 protégé(s) (dernier exemplaire)");
    let specs = session::rule_specs(&rules);
    assert_eq!((specs[1].pattern.as_str(), specs[1].continuous), ("*.txt", false));
    session::act(&mut rules, &mut model, RuleAction::Remove(0));
    assert_eq!(rules.len(), 1);
    assert_eq!(rules[0].spec.pattern, "*.txt");
}

#[test]
fn paths_of_windows() {
    let plain = duplicate_finder::roots::plain_path;
    assert_eq!(plain(r"\\?\C:\x"), Some(r"C:\x".to_string()));
    assert_eq!(plain(r"\\?\UNC\server"), None);
    assert_eq!(plain(r"C:\x"), None);
}

#[test]
fn applying_a_rule_again() {
    let mut model = Model::default();
    for (key, path) in [(1, "/b/1"), (1, "/b/2"), (1, "/b/3"), (2, "/a/4"), (2, "/b/4"), (3, "/a/5"), (3, "/c/5")] {
        model.add_file(key, 1, path.to_string());
    }
    model.set_marked(0, true);
    let ids = all(&model);
    let b = rule("/b/*", false);
    // Of /b/2, /b/3 and /b/4, which are not marked yet, one has to stay.
    let first = rules::apply(&b, &mut model, &ids);
    assert_eq!((first.marked, first.protected), (2, 1));
    let marks: Vec<bool> = model.files.iter().map(|f| f.marked).collect();
    assert_eq!(marks, vec![true, true, false, false, true, false, false]);
    let second = rules::apply(&b, &mut model, &ids);
    assert_eq!((second.marked, second.protected), (0, 1));
    assert_eq!(model.files.iter().map(|f| f.marked).collect::<Vec<bool>>(), marks);
}

#[test]
fn every_pair_with_the_same_content_is_found() {
    let n = PARTIAL_CHUNK as usize;
    let large = |first: u8, middle: u8, last: u8| {
        let mut bytes = vec![0u8; 2 * n + 1];
        bytes[0] = first;
        bytes[n] = middle;
        bytes[2 * n] = last;
        bytes
    };
    let mut disk = Disk::new();
    let contents = [
        large(1, 0, 1),
        large(1, 9, 1),
        b"same".to_vec(),
        large(1, 0, 1),
        large(2, 0, 1),
        b"Same".to_vec(),
        large(1, 9, 1),
        b"same".to_vec(),
        large(1, 0, 1),
        vec![0u8; 2 * n],
        vec![0u8; 2 * n],
    ];
    for (i, content) in contents.iter().enumerate() {
        file(&mut disk, &format!("{}/{i:02}", i % 3), content);
    }
    let mut model = search_into_model(&disk, &texts(&["/disk"]), &Exclusions::default(), &[]);
    refresh(&mut model);
    for i in 0..contents.len() {
        for j in 0..contents.len() {
            let a = model.find(&format!("/disk/{}/{i:02}", i % 3));
            let b = model.find(&format!("/disk/{}/{j:02}", j % 3));
            let together = match (a, b) {
                (Some(a), Some(b)) => model.files[a].group == model.files[b].group,
                _ => false,
            };
            assert!(i == j || together == (contents[i] == contents[j]));
        }
    }
    assert_eq!(model.files.len(), 9);
}

#[test]
fn no_file_is_read_twice_nor_told_twice() {
    let mut disk = Disk::new();
    let long = vec![5u8; 2 * PARTIAL_CHUNK as usize + 1];
    for path in ["a", "b", "c"] {
        file(&mut disk, path, &long);
        file(&mut disk, &format!("{path}2"), b"short");
    }
    let mut scan = Scan::new();
    let mut todo: Vec<Job> = Vec::new();
    let mut given: Vec<(usize, bool)> = Vec::new();
    let mut told: Vec<String> = Vec::new();
    let mut messages: Vec<Msg> = disk.iter().map(|(path, bytes)| Msg::Found(path.clone(), bytes.len() as u64, None)).collect();
    messages.push(Msg::WalkDone);
    while !messages.is_empty() {
        for msg in messages.drain(..) {
            assert!(scan.accepts(&msg));
            let reaction = scan.handle(msg);
            for event in reaction.events {
                match event {
                    ScanEvent::NewGroup { files, .. } => told.extend(files),
                    ScanEvent::AddToGroup { file, .. } => told.push(file),
                    _ => {}
                }
            }
            for job in reaction.jobs {
                given.push(match &job {
                    Job::Partial(id, _, _) => (*id, false),
                    Job::Full(id, _) => (*id, true),
                });
                todo.push(job);
            }
        }
        while let Some(job) = todo.pop() {
            messages.push(perform(&disk, job));
        }
    }
    assert!(scan.is_over());
    given.sort();
    assert_eq!(
        given,
        vec![
            (0, false),
            (0, true),
            (1, true),
            (2, false),
            (2, true),
            (3, true),
            (4, false),
            (4, true),
            (5, true)
        ]
    );
    told.sort();
    assert_eq!(told, texts(&["/disk/a", "/disk/a2", "/disk/b", "/disk/b2", "/disk/c", "/disk/c2"]));
}

/// Finds files in memory and reads what is asked for, some of which fails; gives
/// what was told and what was reported as wrong, at each step the groups.
fn search_with_failures(disk: &Disk, failing: &[usize], growing: &[usize]) -> (Vec<Vec<String>>, Vec<String>) {
    let mut scan = Scan::new();
    let mut groups: Vec<(u64, Vec<String>)> = Vec::new();
    let mut errors = Vec::new();
    let mut messages: Vec<Msg> = disk.iter().map(|(path, bytes)| Msg::Found(path.clone(), bytes.len() as u64, None)).collect();
    messages.push(Msg::WalkDone);
    while !messages.is_empty() {
        let mut next = Vec::new();
        for msg in messages {
            assert!(scan.accepts(&msg));
            let reaction = scan.handle(msg);
            for event in reaction.events {
                match event {
                    ScanEvent::NewGroup { key, files, .. } => groups.push((key, files)),
                    ScanEvent::AddToGroup { key, file } => groups.iter_mut().find(|g| g.0 == key).unwrap().1.push(file),
                    ScanEvent::Error(message) => errors.push(message),
                    _ => {}
                }
            }
            // What was told so far can be relied on at once.
            for (_, files) in &groups {
                assert!(files.iter().all(|f| read(disk, f) == read(disk, &files[0])));
            }
            for job in reaction.jobs {
                let id = match &job {
                    Job::Partial(id, _, _) => *id,
                    Job::Full(id, _) => *id,
                };
                next.push(if failing.contains(&id) {
                    scanner::job_message(job, Err("illisible".to_string()))
                } else if growing.contains(&id) {
                    match perform(disk, job) {
                        Msg::Full(id, hash, bytes) => Msg::Full(id, hash, bytes + 1),
                        msg => msg,
                    }
                } else {
                    perform(disk, job)
                });
            }
        }
        messages = next;
    }
    assert!(scan.is_over());
    (groups.into_iter().map(|g| g.1).collect(), errors)
}

#[test]
fn what_cannot_be_read_is_left_out() {
    let mut disk = Disk::new();
    let long = vec![5u8; 2 * PARTIAL_CHUNK as usize + 1];
    for path in ["s0", "s1", "s2"] {
        file(&mut disk, path, b"short");
    }
    for path in ["l3", "l4", "l5"] {
        file(&mut disk, path, &long);
    }
    let (groups, errors) = search_with_failures(&disk, &[1, 4], &[]);
    assert_eq!(groups, vec![texts(&["/disk/s0", "/disk/s2"]), texts(&["/disk/l3", "/disk/l5"])]);
    assert_eq!(errors, texts(&["/disk/s1 : illisible", "/disk/l4 : illisible"]));
    // Where one of two cannot be read, nothing is told of the other.
    let (groups, errors) = search_with_failures(&disk, &[0, 1], &[3, 5]);
    assert!(groups.is_empty());
    assert_eq!(
        errors,
        texts(&[
            "/disk/s0 : illisible",
            "/disk/s1 : illisible",
            "/disk/l3 : fichier modifié pendant l'analyse, ignoré",
            "/disk/l5 : fichier modifié pendant l'analyse, ignoré",
        ])
    );
}
