use duplicate_finder::contents::{self, FullHash};
use duplicate_finder::rules::{self, Exclusions, Rule, RuleSpec};
use duplicate_finder::session::{self, LivePreview, Settings, MAX_ERRORS};
use duplicate_finder::text;

fn rule(pattern: &str) -> Result<Rule, String> {
    Rule::new(RuleSpec { pattern: pattern.to_string(), continuous: false })
}

fn texts(list: &[&str]) -> Vec<String> {
    list.iter().map(|s| s.to_string()).collect()
}

#[test]
fn glob_syntax() {
    let rule = |p: &str| rule(p).unwrap();
    assert!(rule("*.tmp").matches("/a/b/c.tmp"));
    assert!(!rule("*.tmp").matches("/a/b/c.tmpx"));
    assert!(rule("*/{jpg,png}/*").matches("/x/png/y.bin"));
    assert!(rule("/home/*/Téléchargements/*").matches("/home/moi/Téléchargements/a/b.zip"));
    assert!(Rule::new(RuleSpec { pattern: "[".to_string(), continuous: false }).is_err());
}

#[test]
fn separators_and_case() {
    assert!(rule("*\\bak\\*").unwrap().matches("C:\\x\\bak\\y"));
    assert_eq!(rules::normalize("a\\b/c"), "a/b/c");
    let with_case = |ignore: bool| {
        Rule::with_case(RuleSpec { pattern: "*.TMP".to_string(), continuous: true }, ignore).unwrap()
    };
    assert!(!with_case(false).matches("/a.tmp"));
    assert!(with_case(true).matches("/a.tmp"));
    assert!(with_case(true).spec.continuous);
    assert!(with_case(true).last_result.is_none());
    assert!(rule("*/* (1).{jpg,png}").unwrap().matches("/x/photo (1).png"));
    assert!(rule("?").unwrap().matches("/"));
    assert!(rule("[ab]*").unwrap().matches("b/c") && !rule("[ab]*").unwrap().matches("c/b"));
}

#[test]
fn patterns_that_are_refused() {
    let refused = |p: &str| rule(p).err().unwrap();
    assert_eq!(refused("["), "error parsing glob '[': unclosed character class; missing ']'");
    assert!(refused("{a").contains("unclosed alternate group"));
    assert!(refused("[b-a]").contains("invalid range"));
    let excl = Exclusions::new(&texts(&["*.a", "{", "["]));
    assert!(excl.err().unwrap().starts_with("error parsing glob '{'"));
}

#[test]
fn from_what_was_built() {
    let set = || globset::GlobSetBuilder::new().add(globset::Glob::new("*.a").unwrap()).build().unwrap();
    let spec = || RuleSpec { pattern: "x".to_string(), continuous: false };
    let rule = Rule::from_set(spec(), Ok(set())).unwrap();
    assert!(rule.matches("/b.a") && !rule.matches("x"));
    assert_eq!(Rule::from_set(spec(), Err("no".to_string())).err().unwrap(), "no");
    assert!(Exclusions::from_set(Ok(set()), false).unwrap().excludes_file("/b.a"));
    assert!(!Exclusions::from_set(Ok(set()), true).unwrap().excludes_file("/b.a"));
    assert_eq!(Exclusions::from_set(Err("no".to_string()), false).err().unwrap(), "no");
}

#[test]
fn what_is_left_out() {
    let excl = Exclusions::new(&texts(&["*/.git", "*/cache/", "*/AlbumArt*.jpg"])).unwrap();
    assert!(excl.excludes_dir("/p/.git") && excl.excludes_dir("/p/cache"));
    assert!(!excl.excludes_file("/p/cache") && excl.excludes_file("/m/AlbumArtSmall.jpg"));
    assert!(!excl.excludes_dir("/p/git") && !excl.excludes_file("/m/cover.jpg"));
    let copy = excl.clone();
    assert!(copy.excludes_dir("/p/cache/"));
    let none = Exclusions::default();
    assert!(!none.excludes_dir("/p/.git") && !none.excludes_file("/x"));
    assert!(!Exclusions::new(&Vec::new()).unwrap().excludes_dir("/"));
}

#[test]
fn typing_a_pattern() {
    let mut preview = LivePreview::default();
    preview.update(" x ", 1, |p| Ok(format!("<{p}>")));
    assert_eq!((preview.text.as_str(), preview.is_error), ("<x>", false));
    preview.update(" x ", 1, |_| panic!());
    preview.update(" x ", 2, |_| Err("non".to_string()));
    assert!(preview.is_error);
    assert_eq!(preview.message(), "Motif invalide : non");
    preview.update("\u{2003}\t", 2, |_| panic!());
    assert_eq!((preview.message().as_str(), preview.is_error), ("", false));
}

#[test]
fn editing_what_is_left_out() {
    let patterns = texts(&["*.a", "*.b"]);
    assert_eq!(session::with_exclusion(&patterns, " *.c ", false), Some(texts(&["*.a", "*.b", "*.c"])));
    assert_eq!(session::with_exclusion(&patterns, "*.b", false), None);
    assert_eq!(session::with_exclusion(&patterns, "  ", false), None);
    assert_eq!(session::with_exclusion(&patterns, "*.c", true), None);
    assert_eq!(session::without_exclusion(&patterns, 0), texts(&["*.b"]));
    assert_eq!(session::usable_exclusions(&texts(&["*.a", "[", "*.b"])), patterns);
    assert!(!session::exclusions_or_none(&texts(&["["])).excludes_file("["));
    let specs = ["*.x", "{", "*.y"].map(|p| RuleSpec { pattern: p.to_string(), continuous: true });
    let made = session::usable_rules(&specs.to_vec());
    assert_eq!(made.iter().map(|r| r.spec.pattern.as_str()).collect::<Vec<_>>(), ["*.x", "*.y"]);
}

#[test]
fn what_was_made_or_refused() {
    let mut rules = Vec::new();
    assert_eq!(session::join_rule(&mut rules, rule("*.a")), Ok(()));
    assert_eq!(session::join_rule(&mut rules, Err("non".to_string())), Err("non".to_string()));
    assert_eq!(rules.len(), 1);
    let kept = session::keep_made(vec![rule("*.a"), Err("non".to_string()), rule("*.b")]);
    assert_eq!(kept.iter().map(|r| r.spec.pattern.as_str()).collect::<Vec<_>>(), ["*.a", "*.b"]);
    assert_eq!(session::pick(&texts(&["a", "b", "c"]), &vec![true, false, true]), texts(&["a", "c"]));
    let model = duplicate_finder::model::Model::default();
    assert_eq!(
        session::rule_outcome(rule("*.a"), &model),
        Ok("→ 0 doublon(s) dans 0 dossier(s), 0 seraient marqués".to_string())
    );
    assert_eq!(session::rule_outcome(Err("non".to_string()), &model), Err("non".to_string()));
    assert_eq!(
        session::exclusion_outcome(Ok(Exclusions::default()), &model),
        Ok("Aucun résultat pour l'instant : s'appliquera à la prochaine analyse".to_string())
    );
    assert!(!session::exclusions_of(Err("non".to_string())).excludes_file("/x"));
    let all = Exclusions::new(&texts(&["*"])).unwrap();
    assert!(session::exclusions_of(Ok(all)).excludes_file("/x"));
}

#[test]
fn settings_and_errors() {
    let settings = Settings::for_cores(16);
    assert_eq!((settings.min_size, settings.threads), (1, 4));
    assert!(settings.use_trash && settings.verify_before_delete);
    assert_eq!(Settings::for_cores(2).threads, 2);
    let mut roots = texts(&["/a"]);
    assert!(!session::add_root(&mut roots, "/a/".to_string()));
    assert!(session::add_root(&mut roots, "/b".to_string()));
    assert_eq!(roots, texts(&["/a", "/b"]));
    assert_eq!(session::typed_text("  /c "), Some("/c".to_string()));
    assert_eq!(session::typed_text(" "), None);
    assert_eq!(session::path_error("/x", "dossier introuvable"), "/x : dossier introuvable");
    let mut errors = vec![String::new(); MAX_ERRORS - 1];
    session::push_errors(&mut errors, &texts(&["a", "b"]));
    assert_eq!(errors.len(), MAX_ERRORS);
    assert_eq!(errors[MAX_ERRORS - 1], "a");
}

#[test]
fn fingerprints() {
    // BLAKE3 of nothing.
    let (empty, count) = FullHash::new().finish();
    assert_eq!(count, 0);
    assert_eq!(
        empty.iter().map(|b| format!("{b:02x}")).collect::<String>(),
        "af1349b9f5f9a1a6a0404dea36dcc9499bcb25c9adc112b7cc9a93cae41f3262"
    );
    let mut pieces = FullHash::new();
    pieces.update(b"ab");
    pieces.update(b"c");
    assert_eq!(pieces.total(), 3);
    assert_eq!(pieces.finish().0, contents::partial_hash(b"a", b"bc"));
    assert_ne!(pieces.finish().0, empty);
}

#[test]
fn texts_cut_and_compared() {
    assert_eq!(text::split("a,,b", ','), texts(&["a", "", "b"]));
    assert!(text::less("a", "ab") && text::less("é", "ê") && !text::less("b", "a"));
    assert_eq!(text::trim(" \u{a0}x y\n"), "x y");
    assert_eq!(text::trim("\u{85}\u{1680}\u{200a}\u{2029}\u{202f}\u{205f}\u{3000}\u{b}x\u{200b}"), "x\u{200b}");
    assert_eq!(text::decimal_text(0), "0");
    assert_eq!(text::decimal_text(u64::MAX), "18446744073709551615");
    assert_eq!(text::after_start("abc", "ab"), Some("c".to_string()));
    assert_eq!(text::after_start("abc", "b"), None);
}
