use duplicate_finder::contents::{self, Comparison};
use duplicate_finder::deletion::{self, DeleteGroup, DeleteMsg};
use duplicate_finder::intake::{self, DeleteJob, Dialog, Loaded};
use duplicate_finder::model::Model;
use duplicate_finder::removal::{DeleteAction, DeleteEvent, DeleteRun};

/// A disk in memory: the path and the content of each file that is there.
type Disk = Vec<(String, Vec<u8>)>;

fn texts(list: &[&str]) -> Vec<String> {
    list.iter().map(|s| s.to_string()).collect()
}

fn group(keepers: &[&str], targets: &[&str]) -> DeleteGroup {
    DeleteGroup { keepers: texts(keepers), targets: texts(targets) }
}

fn content<'a>(disk: &'a Disk, path: &str) -> Option<&'a Vec<u8>> {
    disk.iter().find(|f| f.0 == path).map(|f| &f.1)
}

/// Compares two files as a reader of real files would, a few bytes at a time.
fn same(a: &[u8], b: &[u8]) -> bool {
    let mut at = 0;
    loop {
        let piece = |c: &'_ [u8]| c[at.min(c.len())..(at + 4).min(c.len())].to_vec();
        match contents::compare_chunks(&piece(a), &piece(b)) {
            Comparison::Differ => return false,
            Comparison::Same => return true,
            Comparison::Open => at += 4,
        }
    }
}

/// Carries a deletion out, and gives what becomes of each file.
fn run(disk: &mut Disk, groups: Vec<DeleteGroup>, use_trash: bool, verify: bool) -> Vec<(String, Result<u64, String>)> {
    let mut run = DeleteRun::new(groups, use_trash, verify);
    let mut told = Vec::new();
    let mut event = DeleteEvent::Begin;
    let mut ended = false;
    loop {
        event = match run.next(event) {
            DeleteAction::MeasureTarget(path) => DeleteEvent::TargetSize(
                content(disk, &path).map(|c| c.len() as u64).ok_or("introuvable".to_string()),
            ),
            DeleteAction::MeasureKeeper(path) => {
                DeleteEvent::KeeperSize(content(disk, &path).map(|c| c.len() as u64))
            }
            DeleteAction::Compare(path, keeper) => {
                DeleteEvent::Compared(same(content(disk, &path).unwrap(), content(disk, &keeper).unwrap()))
            }
            DeleteAction::Delete(path, to_trash) => {
                assert_eq!(to_trash, use_trash);
                if path.ends_with("locked") {
                    DeleteEvent::Deleted(Err("verrouillé".to_string()))
                } else {
                    disk.retain(|f| f.0 != path);
                    DeleteEvent::Deleted(Ok(()))
                }
            }
            DeleteAction::Send(DeleteMsg::Done(path, result)) => {
                assert!(!ended);
                told.push((path, result));
                DeleteEvent::Sent(true)
            }
            DeleteAction::Send(DeleteMsg::Finished) => {
                ended = true;
                DeleteEvent::Sent(true)
            }
            DeleteAction::Stop => break,
        }
    }
    assert!(ended);
    told
}

#[test]
fn deletion_list_roundtrip_and_safety() {
    let (keep, dup) = ("/list/keep.txt", "/list/dup copy.txt");
    let (changed, protected) = ("/list/changed.txt", "/list/protected.txt");
    let mut disk: Disk = vec![
        (keep.to_string(), b"same content".to_vec()),
        (dup.to_string(), b"same content".to_vec()),
        (changed.to_string(), b"same contenT".to_vec()),
        (protected.to_string(), b"same content".to_vec()),
    ];
    let groups = vec![group(&[keep], &[dup, changed]), group(&[protected], &[keep])];
    let text = deletion::write_list(&groups);
    // Edited by hand, with other line ends and a block that names no copy to keep.
    let mut edited = text.replace('\n', "\r\n");
    edited.push_str(&format!("\r\n# commentaire\r\n{protected}\r\n"));
    let parsed = deletion::read_list(edited.as_bytes()).unwrap();
    assert_eq!(parsed[..2], groups[..]);
    assert_eq!(parsed[2], group(&[], &[protected]));

    let results: Vec<(String, bool)> =
        run(&mut disk, parsed, false, true).into_iter().map(|(p, r)| (p, r.is_ok())).collect();
    assert_eq!(
        results,
        vec![
            (dup.to_string(), true),
            (changed.to_string(), false),
            (keep.to_string(), false),
            (protected.to_string(), false)
        ]
    );
    assert!(content(&disk, dup).is_none());
    assert!([changed, keep, protected].iter().all(|p| content(&disk, p).is_some()));
}

#[test]
fn the_text_of_a_list() {
    let groups = vec![group(&["/k1", "/k2"], &["/t"]), group(&[], &["/u", "/v"])];
    assert_eq!(
        deletion::write_list(&groups),
        "# Liste de suppression générée par Duplicate Finder\n\
         # 3 fichier(s) à supprimer.\n\
         # Blocs : lignes « # conserver : » = exemplaire gardé, puis fichiers à supprimer.\n\
         # Exécution : Duplicate Finder > « Exécuter une liste… », qui revérifie chaque fichier.\n\
         # (Linux, sans vérification : grep -v -e '^#' -e '^$' liste.txt | xargs -d '\\n' rm --)\n\
         \n\
         # conserver : /k1\n\
         # conserver : /k2\n\
         /t\n\
         \n\
         /u\n\
         /v\n"
    );
    assert_eq!(deletion::target_count(&groups), 3);
    assert_eq!(intake::without_keeper(&groups), 2);
    assert_eq!(deletion::read_list(deletion::write_list(&groups).as_bytes()).unwrap(), groups);
    assert_eq!(groups.clone(), groups);
    // A group without anything to delete drops out, and the others stay.
    let more = vec![group(&["/k"], &["/t"]), group(&[], &[]), group(&["/l"], &["/u"]), group(&["/m"], &[])];
    assert_eq!(
        deletion::read_list(deletion::write_list(&more).as_bytes()).unwrap(),
        vec![group(&["/k"], &["/t"]), group(&["/l"], &["/u"])]
    );
}

#[test]
fn reading_what_was_edited_by_hand() {
    let read = |text: &str| deletion::read_list(text.as_bytes()).unwrap();
    assert!(read("").is_empty());
    assert!(read("\n\n").is_empty());
    // An empty line before the files to delete says nothing.
    assert_eq!(read("# conserver : /k\n\n/t\n"), vec![group(&["/k"], &["/t"])]);
    assert_eq!(read("\n# conserver : /k\n\n# conserver : /l\n\n/t"), vec![group(&["/k", "/l"], &["/t"])]);
    // One after them ends the block.
    assert_eq!(read("# conserver : /k\n/t\n\n/u"), vec![group(&["/k"], &["/t"]), group(&[], &["/u"])]);
    // Copies to keep without anything to delete are dropped.
    assert!(read("# conserver : /k\n\n").is_empty());
    // A copy to keep after files to delete begins a block.
    assert_eq!(
        read("# conserver : /k\n/t\n# conserver : /l\n/u\n"),
        vec![group(&["/k"], &["/t"]), group(&["/l"], &["/u"])]
    );
    // A comment says nothing, wherever it stands.
    for text in ["# x\n# conserver : /k\n/t\n\n/u", "# conserver : /k\n# x\n/t\n\n/u", "# conserver : /k\n/t\n# x\n\n/u", "# conserver : /k\n/t\n\n# x\n/u"] {
        assert_eq!(read(text), vec![group(&["/k"], &["/t"]), group(&[], &["/u"])]);
    }
    // A comment within a block does not end it; nor does the missing line end.
    assert_eq!(read("/t\n#conserver : /x\n/u"), vec![group(&[], &["/t", "/u"])]);
    assert_eq!(read("/t\r"), vec![group(&[], &["/t"])]);
    assert_eq!(read("/t\r\r\n"), vec![group(&[], &["/t"])]);
    assert_eq!(read("/t\r\r\r\n"), vec![group(&[], &["/t\r"])]);
    assert_eq!(read("/t\r\r"), vec![group(&[], &["/t\r"])]);
    assert_eq!(read("# conserver : \n/t"), vec![group(&[""], &["/t"])]);
    assert_eq!(read(" # x\n"), vec![group(&[], &[" # x"])]);
    assert_eq!(
        deletion::read_list(&[b'/', 0xff, b'\n']),
        Err("stream did not contain valid UTF-8".to_string())
    );
}

#[test]
fn why_files_are_left() {
    let mut disk: Disk = vec![
        ("/k".to_string(), b"1234".to_vec()),
        ("/short".to_string(), b"123".to_vec()),
        ("/other".to_string(), b"1235".to_vec()),
        ("/same".to_string(), b"1234".to_vec()),
        ("/locked".to_string(), b"1234".to_vec()),
        ("/alone".to_string(), b"1234".to_vec()),
    ];
    let groups = vec![
        group(&["/missing", "/k"], &["/gone", "/short", "/other", "/same", "/locked"]),
        group(&[], &["/alone"]),
        group(&["/z"], &["//k/"]),
    ];
    let told = run(&mut disk, groups.clone(), true, true);
    let none = "aucun exemplaire conservé identique n'a été trouvé, fichier ignoré";
    let expected: Vec<(String, Result<u64, String>)> = vec![
        ("/gone".to_string(), Err("/gone : introuvable".to_string())),
        ("/short".to_string(), Err(format!("/short : {none}"))),
        ("/other".to_string(), Err(format!("/other : {none}"))),
        ("/same".to_string(), Ok(4)),
        ("/locked".to_string(), Err("/locked : verrouillé".to_string())),
        (
            "/alone".to_string(),
            Err("/alone : aucun exemplaire conservé indiqué dans la liste, fichier ignoré (désactivez la vérification pour forcer)".to_string()),
        ),
        // Another spelling of a path that is to be kept.
        ("//k/".to_string(), Err("//k/ : fichier désigné comme conservé, ignoré".to_string())),
    ];
    assert_eq!(told, expected);

    // Without verification, a copy of the same size will do, or none at all.
    let told = run(&mut disk, groups, true, false);
    assert_eq!(told[2], ("/other".to_string(), Ok(4)));
    assert_eq!(told[5], ("/alone".to_string(), Ok(4)));
    assert!(told[6].1.is_err());
}

#[test]
fn nobody_listens() {
    let mut run = DeleteRun::new(vec![group(&["/k"], &["/k", "/t"])], false, true);
    assert!(matches!(run.next(DeleteEvent::Begin), DeleteAction::Send(DeleteMsg::Done(_, Err(_)))));
    assert!(matches!(run.next(DeleteEvent::Sent(false)), DeleteAction::Stop));
    assert!(matches!(run.next(DeleteEvent::Sent(true)), DeleteAction::Stop));
    let mut run = DeleteRun::new(vec![], false, true);
    assert!(matches!(run.next(DeleteEvent::Begin), DeleteAction::Send(DeleteMsg::Finished)));
}

#[test]
fn comparing_pieces() {
    assert_eq!(contents::compare_chunks(b"", b""), Comparison::Same);
    assert_eq!(contents::compare_chunks(b"ab", b"ab"), Comparison::Open);
    assert_eq!(contents::compare_chunks(b"ab", b"ac"), Comparison::Differ);
    assert_eq!(contents::compare_chunks(b"ab", b"abc"), Comparison::Differ);
    assert!(same(b"0123456789", b"0123456789"));
    assert!(!same(b"0123456789", b"0123456788"));
    assert!(!same(b"01234567", b"012345678"));
}

#[test]
fn taking_in_what_was_deleted() {
    let mut model = Model::default();
    let a = model.add_file(1, 4, "/d/a".to_string()).unwrap();
    let b = model.add_file(1, 4, "/d/b".to_string()).unwrap();
    let mut job = DeleteJob::start(&[group(&["/d/b"], &["/d/a", "/d/x", "/d/y"])]).unwrap();
    let mut errors = Vec::new();
    let ok = DeleteMsg::Done("/d//a".to_string(), Ok(4));
    assert!(job.accepts(&ok));
    assert!(!job.take(&mut model, &mut errors, ok));
    assert!(model.files[a].removed && !model.is_visible(b));
    assert!(!job.take(&mut model, &mut errors, DeleteMsg::Done("/d/x".to_string(), Ok(1_500))));
    assert!(!job.take(&mut model, &mut errors, DeleteMsg::Done("/d/y".to_string(), Err("non".to_string()))));
    assert!(job.take(&mut model, &mut errors, DeleteMsg::Finished));
    assert_eq!((job.total, job.done, job.ok, job.freed), (3, 3, 2, 1_504));
    assert_eq!(errors, texts(&["non"]));
    assert_eq!(job.summary(), "2 fichier(s) supprimé(s), 1.50 kB libéré(s), 1 échec(s)");
    assert_eq!(job.progress_text(), "Suppression 3/3");
    assert!(DeleteJob::start(&[]).is_none());
    assert!(!job.accepts(&DeleteMsg::Done(String::new(), Ok(u64::MAX))));
}

#[test]
fn asking_before_deleting() {
    let groups = [group(&["/k"], &["/a", "/b"]), group(&[], &["/c"])];
    let dialog = Dialog::of_list("/liste.txt", &groups);
    assert_eq!(dialog.heading, "Exécuter la liste de suppression ?");
    assert_eq!(dialog.lines, texts(&["/liste.txt", "3 fichier(s) à supprimer."]));
    assert_eq!(
        dialog.warning.unwrap(),
        "1 fichier(s) sans exemplaire conservé indiqué : ignorés si la vérification est active."
    );
    assert!(Dialog::of_list("/liste.txt", &groups[..1]).warning.is_none());
    let dialog = Dialog::of_marked(&groups, 2_000_000, 2);
    assert_eq!(dialog.heading, "Supprimer les fichiers marqués ?");
    assert_eq!(dialog.lines, texts(&["3 fichier(s), 2 MB au total."]));
    assert_eq!(
        dialog.warning.unwrap(),
        "2 fichier(s) ignoré(s) : tous les exemplaires de leur groupe sont marqués."
    );
    assert!(Dialog::of_marked(&groups, 0, 0).warning.is_none());
    assert_eq!(intake::exported_text(3, "/l.txt"), "Liste exportée : 3 fichier(s) → /l.txt");
}

#[test]
fn loading_a_list() {
    let load = |text: &str| intake::load("/l", Ok(text.as_bytes().to_vec()));
    assert!(matches!(load("# conserver : /k\n/t\n"), Loaded::Ask(g) if g == vec![group(&["/k"], &["/t"])]));
    assert!(matches!(load("# conserver : /k\n# x\n"), Loaded::Nothing(m) if m == "/l : aucun fichier à supprimer"));
    let failed = intake::load("/l", Ok(vec![0xc3]));
    assert!(matches!(failed, Loaded::Failed(m) if m == "/l : stream did not contain valid UTF-8"));
    assert!(matches!(intake::load("/l", Err("non".to_string())), Loaded::Failed(m) if m == "/l : non"));
}
